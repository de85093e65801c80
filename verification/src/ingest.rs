//! Ingestion Normalizer: expands raw rows through the Range Expander,
//! drops exact duplicates by their full normalized text, and partitions
//! the surviving rows into bounded chunks, numbered contiguously from a
//! starting index found by scanning existing chunk file names.
//!
//! Reading the input and writing the chunk files is the caller's work;
//! this module plans the exact contents of every chunk.

use vstd::prelude::*;
use crate::expand::{enumerate_house_numbers, spec_enumerate};
use crate::strutil::{
    contains_string, dedup_lines, is_uint_str, lemma_dedup_lines_prefix, lemma_dedup_lines_props,
    parse_u64, str_ends_with, str_starts_with, uint_str_value, views,
};

verus! {

/// Every input line expanded, in input order.
pub open spec fn expand_all(lines: Seq<Seq<char>>) -> Seq<Seq<char>>
    decreases lines.len(),
{
    if lines.len() == 0 {
        Seq::<Seq<char>>::empty()
    } else {
        expand_all(lines.drop_last()) + spec_enumerate(lines.last())
    }
}

/// One bounded chunk of output rows.
pub struct Chunk {
    pub index: u64,
    pub rows: Vec<String>,
}

/// The row lists of a sequence of chunks.
pub open spec fn chunk_views(cs: Seq<Chunk>) -> Seq<Seq<Seq<char>>> {
    cs.map_values(|c: Chunk| views(c.rows@))
}

/// How the deduplicated rows partition into chunks: a new chunk is
/// opened the moment one fills, so the last chunk always has fewer than
/// `max` rows and may be empty.
pub open spec fn chunk_rows(u: Seq<Seq<char>>, max: int) -> Seq<Seq<Seq<char>>>
    decreases u.len(),
{
    if max < 1 || u.len() < max {
        seq![u]
    } else {
        seq![u.take(max)] + chunk_rows(u.skip(max), max)
    }
}

/// Every chunk plan has at least one chunk, every chunk holds at most
/// `max` rows, the last fewer than `max`, and reading the chunks back to
/// back gives exactly the deduplicated rows.
pub proof fn lemma_chunk_rows_props(u: Seq<Seq<char>>, max: int)
    requires
        max >= 1,
    ensures
        chunk_rows(u, max).len() >= 1,
        forall|k: int| 0 <= k < chunk_rows(u, max).len() ==> (#[trigger] chunk_rows(u, max)[
            k
        ]).len() <= max,
        chunk_rows(u, max).last().len() < max,
        chunk_rows(u, max).flatten() == u,
    decreases u.len(),
{
    if u.len() < max {
        assert(chunk_rows(u, max) == seq![u]);
        assert(seq![u].flatten() =~= u) by {
            assert(seq![u].drop_first() =~= Seq::<Seq<Seq<char>>>::empty());
            assert(Seq::<Seq<Seq<char>>>::empty().flatten() =~= Seq::<Seq<char>>::empty());
        }
    } else {
        lemma_chunk_rows_props(u.skip(max), max);
        let cr = chunk_rows(u, max);
        let sub = chunk_rows(u.skip(max), max);
        assert(cr == seq![u.take(max)] + sub);
        assert forall|k: int| 0 <= k < cr.len() implies (#[trigger] cr[k]).len() <= max by {
            if k > 0 {
                assert(cr[k] == sub[k - 1]);
            }
        }
        assert(cr.last() == sub.last());
        assert(cr.flatten() =~= u) by {
            assert(cr.drop_first() =~= sub);
            assert(cr.flatten() == cr.first() + cr.drop_first().flatten());
            assert(u.take(max) + u.skip(max) =~= u);
        }
    }
}

/// Appending one fresh row to the deduplicated stream grows the last
/// chunk, and closes it — opening a new empty one — exactly when it
/// fills.
pub proof fn lemma_chunk_rows_push(u: Seq<Seq<char>>, x: Seq<char>, max: int)
    requires
        max >= 1,
    ensures
        ({
            let cr = chunk_rows(u, max);
            let grown = cr.update(cr.len() - 1, cr.last().push(x));
            chunk_rows(u.push(x), max) == if cr.last().len() + 1 == max {
                grown.push(Seq::<Seq<char>>::empty())
            } else {
                grown
            }
        }),
    decreases u.len(),
{
    let cr = chunk_rows(u, max);
    let grown = cr.update(cr.len() - 1, cr.last().push(x));
    if u.len() < max {
        assert(cr == seq![u]);
        if u.len() + 1 == max {
            assert(u.push(x).len() >= max);
            assert(u.push(x).take(max) =~= u.push(x));
            assert(u.push(x).skip(max) =~= Seq::<Seq<char>>::empty());
            assert(chunk_rows(u.push(x), max) == seq![u.push(x).take(max)] + chunk_rows(
                u.push(x).skip(max),
                max,
            ));
            assert(chunk_rows(u.push(x), max) =~= grown.push(Seq::<Seq<char>>::empty()));
        } else {
            assert(chunk_rows(u.push(x), max) == seq![u.push(x)]);
            assert(chunk_rows(u.push(x), max) =~= grown);
        }
    } else {
        lemma_chunk_rows_push(u.skip(max), x, max);
        let sub = chunk_rows(u.skip(max), max);
        let subgrown = sub.update(sub.len() - 1, sub.last().push(x));
        assert(cr == seq![u.take(max)] + sub);
        assert(cr.last() == sub.last());
        assert(u.push(x).len() >= max);
        assert(u.push(x).take(max) =~= u.take(max));
        assert(u.push(x).skip(max) =~= u.skip(max).push(x));
        assert(chunk_rows(u.push(x), max) == seq![u.take(max)] + chunk_rows(
            u.skip(max).push(x),
            max,
        ));
        assert(grown =~= seq![u.take(max)] + subgrown);
        if sub.last().len() + 1 == max {
            assert(chunk_rows(u.push(x), max) =~= grown.push(Seq::<Seq<char>>::empty()));
        } else {
            assert(chunk_rows(u.push(x), max) =~= grown);
        }
    }
}

/// A prefix of the rows never needs more chunks.
pub proof fn lemma_chunk_count_mono(u1: Seq<Seq<char>>, u2: Seq<Seq<char>>, max: int)
    requires
        max >= 1,
        u1.is_prefix_of(u2),
    ensures
        chunk_rows(u1, max).len() <= chunk_rows(u2, max).len(),
    decreases u2.len(),
{
    if u1.len() < max {
        lemma_chunk_rows_props(u2, max);
    } else {
        assert(u1.take(max) =~= u2.take(max));
        assert(u1.skip(max).is_prefix_of(u2.skip(max))) by {
            assert(u1.skip(max) =~= u2.skip(max).subrange(0, u1.len() - max));
        }
        lemma_chunk_count_mono(u1.skip(max), u2.skip(max), max);
    }
}

/// The Dedup Writer never emits two rows with identical normalized text
/// within one run, and the rows it emits, read across the chunks in
/// order, are exactly the first occurrences of the expanded input rows;
/// no chunk exceeds the bound, and only the last may fall short of it.
pub proof fn lemma_dedup_writer_unique(lines: Seq<Seq<char>>, max: int)
    requires
        max >= 1,
    ensures
        ({
            let u = dedup_lines(expand_all(lines));
            &&& chunk_rows(u, max).flatten() == u
            &&& u.no_duplicates()
            &&& forall|x: Seq<char>| u.contains(x) <==> expand_all(lines).contains(x)
            &&& forall|k: int| 0 <= k < chunk_rows(u, max).len() ==> (#[trigger] chunk_rows(
                u,
                max,
            )[k]).len() <= max
            &&& chunk_rows(u, max).last().len() < max
        }),
{
    lemma_dedup_lines_props(expand_all(lines));
    lemma_chunk_rows_props(dedup_lines(expand_all(lines)), max);
}

/// Expanding a prefix of the input expands to a prefix of the full
/// expansion.
pub proof fn lemma_expand_all_take_prefix(l: Seq<Seq<char>>, j: int)
    requires
        0 <= j <= l.len(),
    ensures
        expand_all(l.take(j)).is_prefix_of(expand_all(l)),
    decreases l.len() - j,
{
    if j == l.len() {
        assert(l.take(j) =~= l);
        assert(expand_all(l) =~= expand_all(l).subrange(0, expand_all(l).len() as int));
    } else {
        lemma_expand_all_take_prefix(l, j + 1);
        assert(l.take(j + 1).drop_last() =~= l.take(j));
        let a = expand_all(l.take(j));
        let b = expand_all(l.take(j + 1));
        let c = expand_all(l);
        assert(b == a + spec_enumerate(l[j]));
        assert(a =~= b.subrange(0, a.len() as int));
        assert(a =~= c.subrange(0, a.len() as int));
    }
}

/// Expands every input line, drops each row whose normalized text was
/// already written in this run, and partitions the surviving rows into
/// chunks of at most `max_rows` rows: the moment a chunk fills, the next
/// one — numbered one higher — is opened, so the final chunk, which is
/// always produced, holds fewer than `max_rows` rows and may be empty.
pub fn process_rows(lines: &Vec<String>, max_rows: usize, start_index: u64) -> (chunks: Vec<
    Chunk,
>)
    requires
        max_rows >= 1,
        start_index + chunk_rows(dedup_lines(expand_all(views(lines@))), max_rows as int).len()
            <= u64::MAX,
    ensures
        chunk_views(chunks@) == chunk_rows(
            dedup_lines(expand_all(views(lines@))),
            max_rows as int,
        ),
        forall|k: int|
            0 <= k < chunks@.len() ==> (#[trigger] chunks@[k]).index == start_index + k,
{
    let ghost full = expand_all(views(lines@));
    let ghost gmax = max_rows as int;
    let mut chunks: Vec<Chunk> = Vec::new();
    let mut uniq: Vec<String> = Vec::new();
    let mut cur: Vec<String> = Vec::new();
    let mut cur_index: u64 = start_index;
    proof {
        assert(views(lines@).take(0) =~= Seq::<Seq<char>>::empty());
        assert(expand_all(Seq::<Seq<char>>::empty()) =~= Seq::<Seq<char>>::empty());
        assert(views(uniq@) =~= Seq::<Seq<char>>::empty());
        assert(views(cur@) =~= Seq::<Seq<char>>::empty());
        assert(chunk_views(chunks@).push(views(cur@)) =~= chunk_rows(
            Seq::<Seq<char>>::empty(),
            gmax,
        ));
        assert(Seq::<Seq<char>>::empty().is_prefix_of(full)) by {
            assert(Seq::<Seq<char>>::empty() =~= full.subrange(0, 0));
        }
    }
    let mut i: usize = 0;
    while i < lines.len()
        invariant
            i <= lines@.len(),
            max_rows >= 1,
            gmax == max_rows as int,
            full == expand_all(views(lines@)),
            start_index + chunk_rows(dedup_lines(full), gmax).len() <= u64::MAX,
            views(uniq@) == dedup_lines(expand_all(views(lines@).take(i as int))),
            chunk_views(chunks@).push(views(cur@)) == chunk_rows(
                dedup_lines(expand_all(views(lines@).take(i as int))),
                gmax,
            ),
            forall|k: int|
                0 <= k < chunks@.len() ==> (#[trigger] chunks@[k]).index == start_index + k,
            cur_index == start_index + chunks@.len(),
            cur@.len() < max_rows,
        decreases lines@.len() - i,
    {
        let expanded = enumerate_house_numbers(lines[i].as_str());
        let ghost es = spec_enumerate(views(lines@)[i as int]);
        let ghost st0 = expand_all(views(lines@).take(i as int));
        proof {
            assert(views(lines@)[i as int] == lines@[i as int]@);
            assert(views(expanded@) == es);
            assert(views(lines@).take(i + 1).drop_last() =~= views(lines@).take(i as int));
            assert(views(lines@).take(i + 1).last() == views(lines@)[i as int]);
            assert(expand_all(views(lines@).take(i + 1)) == st0 + es);
            lemma_expand_all_take_prefix(views(lines@), i + 1);
            assert(st0 + es.take(0) =~= st0);
        }
        let mut j: usize = 0;
        while j < expanded.len()
            invariant
                j <= expanded@.len(),
                max_rows >= 1,
                gmax == max_rows as int,
                full == expand_all(views(lines@)),
                start_index + chunk_rows(dedup_lines(full), gmax).len() <= u64::MAX,
                es == views(expanded@),
                (st0 + es).is_prefix_of(full),
                views(uniq@) == dedup_lines(st0 + es.take(j as int)),
                chunk_views(chunks@).push(views(cur@)) == chunk_rows(
                    dedup_lines(st0 + es.take(j as int)),
                    gmax,
                ),
                forall|k: int|
                    0 <= k < chunks@.len() ==> (#[trigger] chunks@[k]).index == start_index + k,
                cur_index == start_index + chunks@.len(),
                cur@.len() < max_rows,
            decreases expanded@.len() - j,
        {
            let row: &String = &expanded[j];
            let ghost stj = st0 + es.take(j as int);
            let ghost x = es[j as int];
            proof {
                assert(row@ == x);
                assert(st0 + es.take(j + 1) =~= stj.push(x));
                assert(stj.push(x).drop_last() =~= stj);
                lemma_dedup_lines_props(stj);
            }
            if contains_string(&uniq, row.as_str()) {
                proof {
                    assert(dedup_lines(stj).contains(x));
                    assert(stj.contains(x));
                    assert(dedup_lines(stj.push(x)) == dedup_lines(stj));
                    assert(chunk_views(chunks@).push(views(cur@)) == chunk_rows(
                        dedup_lines(st0 + es.take(j + 1)),
                        gmax,
                    ));
                }
            } else {
                proof {
                    assert(!stj.contains(x));
                    assert(dedup_lines(stj.push(x)) == dedup_lines(stj).push(x));
                    lemma_chunk_rows_push(dedup_lines(stj), x, gmax);
                }
                let ghost prev_uniq = uniq@;
                let ghost prev_cur = cur@;
                let ghost prev_chunks = chunks@;
                let ghost cr = chunk_rows(dedup_lines(stj), gmax);
                uniq.push(row.clone());
                cur.push(row.clone());
                proof {
                    assert(views(uniq@) =~= views(prev_uniq).push(x));
                    assert(views(cur@) =~= views(prev_cur).push(x));
                    assert(cr.last() == views(prev_cur));
                    assert(cr.update(cr.len() - 1, cr.last().push(x)) =~= chunk_views(
                        prev_chunks,
                    ).push(views(prev_cur).push(x)));
                }
                if cur.len() == max_rows {
                    proof {
                        let u2 = dedup_lines(stj).push(x);
                        assert(chunk_rows(u2, gmax) == chunk_views(prev_chunks).push(
                            views(prev_cur).push(x),
                        ).push(Seq::<Seq<char>>::empty()));
                        assert((st0 + es.take(j + 1)).is_prefix_of(full)) by {
                            assert(st0 + es.take(j + 1) =~= (st0 + es).subrange(
                                0,
                                st0.len() + j + 1,
                            ));
                            assert(st0 + es.take(j + 1) =~= full.subrange(
                                0,
                                st0.len() + j + 1,
                            ));
                        }
                        lemma_dedup_lines_prefix(st0 + es.take(j + 1), full);
                        lemma_chunk_count_mono(
                            dedup_lines(st0 + es.take(j + 1)),
                            dedup_lines(full),
                            gmax,
                        );
                        assert(chunk_rows(u2, gmax).len() == prev_chunks.len() + 2);
                    }
                    let full_rows = cur;
                    cur = Vec::new();
                    chunks.push(Chunk { index: cur_index, rows: full_rows });
                    cur_index = cur_index + 1;
                    proof {
                        assert(chunk_views(chunks@) =~= chunk_views(prev_chunks).push(
                            views(prev_cur).push(x),
                        ));
                        assert(views(cur@) =~= Seq::<Seq<char>>::empty());
                        assert(chunk_views(chunks@).push(views(cur@)) =~= chunk_rows(
                            dedup_lines(st0 + es.take(j + 1)),
                            gmax,
                        ));
                        assert(chunks@.last().index == start_index + prev_chunks.len());
                        assert(forall|k: int|
                            0 <= k < prev_chunks.len() ==> chunks@[k] == prev_chunks[k]);
                    }
                } else {
                    proof {
                        assert(chunk_views(chunks@).push(views(cur@)) =~= chunk_rows(
                            dedup_lines(st0 + es.take(j + 1)),
                            gmax,
                        ));
                    }
                }
            }
            j = j + 1;
        }
        proof {
            assert(es.take(es.len() as int) =~= es);
            assert(st0 + es.take(es.len() as int) =~= st0 + es);
        }
        i = i + 1;
    }
    proof {
        assert(views(lines@).take(lines@.len() as int) =~= views(lines@));
    }
    let ghost prev_chunks = chunks@;
    chunks.push(Chunk { index: cur_index, rows: cur });
    proof {
        assert(chunk_views(chunks@) =~= chunk_views(prev_chunks).push(
            chunk_views(chunks@).last(),
        ));
        assert(chunk_views(chunks@) =~= chunk_rows(dedup_lines(full), gmax));
        assert(chunks@.last().index == start_index + prev_chunks.len());
        assert(forall|k: int| 0 <= k < prev_chunks.len() ==> chunks@[k] == prev_chunks[k]);
    }
    chunks
}

/// The pattern of a chunk file name.
pub open spec fn name_prefix() -> Seq<char> {
    seq!['d', 'a', 't', 'a', '_', 'n', 'l', '_']
}

pub open spec fn name_suffix() -> Seq<char> {
    seq!['.', 'c', 's', 'v']
}

/// The index a chunk file name `data_nl_<n>.csv` encodes, if any.
pub open spec fn spec_file_index(name: Seq<char>) -> Option<int> {
    if name.len() >= 12 && name_prefix().is_prefix_of(name) && name_suffix().is_suffix_of(name) {
        let mid = name.subrange(8, name.len() - 4);
        if is_uint_str(mid) && uint_str_value(mid) <= u64::MAX {
            Some(uint_str_value(mid))
        } else {
            None
        }
    } else {
        None
    }
}

/// The highest chunk index any of the file names encodes, zero when none
/// does.
pub open spec fn spec_max_index(names: Seq<Seq<char>>) -> int
    decreases names.len(),
{
    if names.len() == 0 {
        0
    } else {
        let rest = spec_max_index(names.drop_last());
        match spec_file_index(names.last()) {
            Some(v) => if v > rest {
                v
            } else {
                rest
            },
            None => rest,
        }
    }
}

/// Picks the next free chunk index from the existing file names: one
/// past the highest index found, and one when none is found (a lone
/// index of zero also yields one).
pub fn next_chunk_index(names: &Vec<String>) -> (r: u64)
    requires
        spec_max_index(views(names@)) < u64::MAX,
    ensures
        r == if spec_max_index(views(names@)) == 0 {
            1int
        } else {
            spec_max_index(views(names@)) + 1
        },
{
    let mut max: u64 = 0;
    let mut i: usize = 0;
    proof {
        reveal_strlit("data_nl_");
        reveal_strlit(".csv");
        assert("data_nl_"@ =~= name_prefix());
        assert(".csv"@ =~= name_suffix());
    }
    while i < names.len()
        invariant
            i <= names@.len(),
            "data_nl_"@ == name_prefix(),
            ".csv"@ == name_suffix(),
            max == spec_max_index(views(names@).take(i as int)),
            spec_max_index(views(names@)) < u64::MAX,
        decreases names@.len() - i,
    {
        let name: &str = names[i].as_str();
        proof {
            assert(name@ == views(names@)[i as int]);
            assert(views(names@).take(i + 1).drop_last() =~= views(names@).take(i as int));
            assert(views(names@).take(i + 1).last() == views(names@)[i as int]);
        }
        let n: usize = name.unicode_len();
        if n >= 12 && str_starts_with(name, "data_nl_") && str_ends_with(name, ".csv") {
            let mid: &str = name.substring_char(8, n - 4);
            proof {
                assert(mid@ =~= name@.subrange(8, name@.len() - 4));
            }
            match parse_u64(mid) {
                Some(v) => {
                    proof {
                        assert(spec_file_index(name@) == Some(v as int));
                    }
                    if v > max {
                        max = v;
                    }
                },
                None => {
                    proof {
                        assert(spec_file_index(name@) is None);
                    }
                },
            }
        } else {
            proof {
                assert(spec_file_index(name@) is None);
            }
        }
        i = i + 1;
    }
    proof {
        assert(views(names@).take(names@.len() as int) =~= views(names@));
    }
    if max == 0 {
        1
    } else {
        max + 1
    }
}

} // verus!
