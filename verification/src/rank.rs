//! Composite scoring and ranking.
//!
//! A word's comparison key sums its raw scores across several window lengths
//! and normalizes by the summed window counts, guarding against the bias that
//! longer words accumulate more raw score simply by having more windows. The
//! key is the exact rational `score / windows`, compared by cross
//! multiplication; a word with no windows at any configured length is given
//! the key 0 — a defined minimum, not an error. Ranking sorts descending by
//! key with a stable insertion: among equal keys the input order is kept.

use vstd::prelude::*;

use crate::grams::{gram_count_spec, grams_spec, Word};
use crate::table::{
    lemma_score_unseen,
    map_of,
    spec_score,
    score_word,
    table_wf,
    FreqTable,
};

verus! {

/// Well-formedness of a list of (window length, table) pairs: positive
/// lengths, well-formed tables.
pub open spec fn tables_wf(ts: Seq<(usize, FreqTable)>) -> bool {
    forall|i: int| 0 <= i < ts.len() ==> 1 <= (#[trigger] ts[i]).0 && table_wf(ts[i].1@)
}

/// The summed raw score of `w` across all configured window lengths.
pub open spec fn composite_score(w: Seq<char>, ts: Seq<(usize, FreqTable)>) -> int
    decreases ts.len(),
{
    if ts.len() == 0 {
        0
    } else {
        composite_score(w, ts.drop_last()) + spec_score(
            w,
            ts.last().0 as int,
            map_of(ts.last().1@),
        )
    }
}

/// The summed window count of `w` across all configured window lengths.
pub open spec fn composite_windows(w: Seq<char>, ts: Seq<(usize, FreqTable)>) -> int
    decreases ts.len(),
{
    if ts.len() == 0 {
        0
    } else {
        composite_windows(w, ts.drop_last()) + gram_count_spec(w, ts.last().0 as int)
    }
}

/// The numerator of a word's comparison key; 0 when the word has no windows.
pub open spec fn word_num(w: Word, ts: Seq<(usize, FreqTable)>) -> int {
    if composite_windows(w@, ts) == 0 {
        0
    } else {
        composite_score(w@, ts)
    }
}

/// The denominator of a word's comparison key; 1 when the word has no
/// windows, so that its key is the defined minimum 0.
pub open spec fn word_den(w: Word, ts: Seq<(usize, FreqTable)>) -> int {
    if composite_windows(w@, ts) == 0 {
        1
    } else {
        composite_windows(w@, ts)
    }
}

/// `a`'s normalized key is strictly below `b`'s, by cross multiplication.
pub open spec fn word_lt(a: Word, b: Word, ts: Seq<(usize, FreqTable)>) -> bool {
    word_num(a, ts) * word_den(b, ts) < word_num(b, ts) * word_den(a, ts)
}

/// `a`'s normalized key is at least `b`'s, by cross multiplication.
pub open spec fn word_ge(a: Word, b: Word, ts: Seq<(usize, FreqTable)>) -> bool {
    word_num(a, ts) * word_den(b, ts) >= word_num(b, ts) * word_den(a, ts)
}

/// The bounds a word must satisfy so that its key can be computed in 64-bit
/// arithmetic.
pub open spec fn word_ok(w: Word, ts: Seq<(usize, FreqTable)>) -> bool {
    &&& w@.len() + 2 <= usize::MAX
    &&& composite_score(w@, ts) <= u64::MAX
    &&& composite_windows(w@, ts) <= u64::MAX
}

/// A word's composite comparison key: the exact rational
/// `score / windows`, or 0 when `windows` is 0.
#[derive(Clone, Copy, PartialEq, Eq, Structural, Debug)]
pub struct RankKey {
    pub score: u64,
    pub windows: u64,
}

proof fn lemma_grams_score_nonneg(gs: Seq<Seq<char>>, m: Map<Seq<char>, u64>)
    ensures
        crate::table::grams_score(gs, m) >= 0,
    decreases gs.len(),
{
    if gs.len() > 0 {
        lemma_grams_score_nonneg(gs.drop_last(), m);
    }
}

/// Both composite sums are non-negative.
pub proof fn lemma_composite_nonneg(w: Seq<char>, ts: Seq<(usize, FreqTable)>)
    ensures
        composite_score(w, ts) >= 0,
        composite_windows(w, ts) >= 0,
    decreases ts.len(),
{
    if ts.len() > 0 {
        lemma_composite_nonneg(w, ts.drop_last());
        lemma_grams_score_nonneg(grams_spec(w, ts.last().0 as int), map_of(ts.last().1@));
    }
}

proof fn lemma_composite_component(w: Seq<char>, ts: Seq<(usize, FreqTable)>, i: int)
    requires
        0 <= i < ts.len(),
    ensures
        spec_score(w, ts[i].0 as int, map_of(ts[i].1@)) <= composite_score(w, ts),
        gram_count_spec(w, ts[i].0 as int) <= composite_windows(w, ts),
    decreases ts.len(),
{
    if i == ts.len() - 1 {
        lemma_composite_nonneg(w, ts.drop_last());
    } else {
        lemma_composite_component(w, ts.drop_last(), i);
        lemma_grams_score_nonneg(grams_spec(w, ts.last().0 as int), map_of(ts.last().1@));
        assert(ts.drop_last()[i] == ts[i]);
    }
}

proof fn lemma_composite_step(w: Seq<char>, ts: Seq<(usize, FreqTable)>, j: int)
    requires
        0 <= j < ts.len(),
    ensures
        composite_score(w, ts.subrange(0, j + 1)) == composite_score(w, ts.subrange(0, j))
            + spec_score(w, ts[j].0 as int, map_of(ts[j].1@)),
        composite_windows(w, ts.subrange(0, j + 1)) == composite_windows(w, ts.subrange(0, j))
            + gram_count_spec(w, ts[j].0 as int),
{
    assert(ts.subrange(0, j + 1).drop_last() =~= ts.subrange(0, j));
    assert(ts.subrange(0, j + 1).last() == ts[j]);
}

proof fn lemma_composite_prefix(w: Seq<char>, ts: Seq<(usize, FreqTable)>, j: int)
    requires
        0 <= j <= ts.len(),
    ensures
        composite_score(w, ts.subrange(0, j)) <= composite_score(w, ts),
        composite_windows(w, ts.subrange(0, j)) <= composite_windows(w, ts),
    decreases ts.len(),
{
    if j == ts.len() {
        assert(ts.subrange(0, j) =~= ts);
    } else {
        assert(ts.subrange(0, j) =~= ts.drop_last().subrange(0, j));
        lemma_composite_prefix(w, ts.drop_last(), j);
        lemma_grams_score_nonneg(grams_spec(w, ts.last().0 as int), map_of(ts.last().1@));
    }
}

/// Computes a word's composite comparison key: raw scores summed across all
/// configured window lengths, over the summed window counts.
pub fn composite_rank_key(word: &Word, tables: &Vec<(usize, FreqTable)>) -> (k: RankKey)
    requires
        tables_wf(tables@),
        word_ok(*word, tables@),
    ensures
        k.score == composite_score(word@, tables@),
        k.windows == composite_windows(word@, tables@),
{
    let ghost ts = tables@;
    let mut score: u64 = 0;
    let mut windows: u64 = 0;
    let mut i: usize = 0;
    proof {
        assert(ts.subrange(0, 0) =~= Seq::<(usize, FreqTable)>::empty());
        lemma_composite_nonneg(word@, ts);
    }
    while i < tables.len()
        invariant
            ts == tables@,
            tables_wf(ts),
            word_ok(*word, ts),
            i <= ts.len(),
            score == composite_score(word@, ts.subrange(0, i as int)),
            windows == composite_windows(word@, ts.subrange(0, i as int)),
        decreases ts.len() - i,
    {
        proof {
            lemma_composite_component(word@, ts, i as int);
            lemma_composite_step(word@, ts, i as int);
            lemma_composite_prefix(word@, ts, i as int + 1);
            lemma_composite_nonneg(word@, ts.subrange(0, i as int));
            lemma_grams_score_nonneg(
                grams_spec(word@, ts[i as int].0 as int),
                map_of(ts[i as int].1@),
            );
        }
        let entry = &tables[i];
        let s = score_word(word, entry.0, &entry.1);
        let c = word.gram_count(entry.0);
        score = score + s;
        windows = windows + (c as u64);
        i += 1;
    }
    proof {
        assert(ts.subrange(0, i as int) =~= ts);
    }
    RankKey { score, windows }
}

/// Decides whether `a`'s normalized key is strictly below `b`'s, by exact
/// cross multiplication in 128-bit arithmetic.
fn word_below(a: &Word, b: &Word, tables: &Vec<(usize, FreqTable)>) -> (r: bool)
    requires
        tables_wf(tables@),
        word_ok(*a, tables@),
        word_ok(*b, tables@),
    ensures
        r == word_lt(*a, *b, tables@),
{
    let ka = composite_rank_key(a, tables);
    let kb = composite_rank_key(b, tables);
    proof {
        lemma_composite_nonneg(a@, tables@);
        lemma_composite_nonneg(b@, tables@);
    }
    let na: u64 = if ka.windows == 0 {
        0
    } else {
        ka.score
    };
    let da: u64 = if ka.windows == 0 {
        1
    } else {
        ka.windows
    };
    let nb: u64 = if kb.windows == 0 {
        0
    } else {
        kb.score
    };
    let db: u64 = if kb.windows == 0 {
        1
    } else {
        kb.windows
    };
    proof {
        assert((na as u128) * (db as u128) <= u128::MAX && (nb as u128) * (da as u128)
            <= u128::MAX) by (nonlinear_arith)
            requires
                na <= u64::MAX,
                db <= u64::MAX,
                nb <= u64::MAX,
                da <= u64::MAX,
        ;
    }
    let left: u128 = (na as u128) * (db as u128);
    let right: u128 = (nb as u128) * (da as u128);
    left < right
}

/// Where `w` lands when inserted into `s`: before the first element whose key
/// is strictly below `w`'s, and after every element whose key ties with or
/// beats `w`'s — so equal keys keep their earlier-first order.
pub open spec fn insert_desc(w: Word, s: Seq<Word>, ts: Seq<(usize, FreqTable)>) -> Seq<Word>
    decreases s.len(),
{
    if s.len() == 0 {
        seq![w]
    } else if word_lt(s[0], w, ts) {
        seq![w] + s
    } else {
        seq![s[0]] + insert_desc(w, s.drop_first(), ts)
    }
}

/// The ranking of `s`: a stable insertion sort, descending by composite key.
pub open spec fn spec_rank(s: Seq<Word>, ts: Seq<(usize, FreqTable)>) -> Seq<Word>
    decreases s.len(),
{
    if s.len() == 0 {
        Seq::empty()
    } else {
        insert_desc(s.last(), spec_rank(s.drop_last(), ts), ts)
    }
}

proof fn lemma_insert_desc_at(w: Word, s: Seq<Word>, ts: Seq<(usize, FreqTable)>, j: int)
    requires
        0 <= j <= s.len(),
        forall|k: int| 0 <= k < j ==> !word_lt(#[trigger] s[k], w, ts),
        j < s.len() ==> word_lt(s[j], w, ts),
    ensures
        insert_desc(w, s, ts) == s.subrange(0, j) + seq![w] + s.subrange(j, s.len() as int),
    decreases s.len(),
{
    if j == 0 {
        if s.len() == 0 {
            assert(insert_desc(w, s, ts) =~= s.subrange(0, 0) + seq![w] + s.subrange(0, 0));
        } else {
            assert(insert_desc(w, s, ts) =~= s.subrange(0, 0) + seq![w] + s.subrange(
                0,
                s.len() as int,
            ));
        }
    } else {
        let df = s.drop_first();
        assert(forall|k: int| 0 <= k < j - 1 ==> !word_lt(#[trigger] df[k], w, ts));
        lemma_insert_desc_at(w, df, ts, j - 1);
        assert(insert_desc(w, s, ts) =~= s.subrange(0, j) + seq![w] + s.subrange(
            j,
            s.len() as int,
        ));
    }
}

/// Ranks the words descending by composite key against the given tables.
/// The result is the stable insertion sort `spec_rank`, so a fixed corpus,
/// word list and table set always yields the identical ordered sequence;
/// it is a permutation of the input and is sorted descending.
pub fn rank(words: Vec<Word>, tables: &Vec<(usize, FreqTable)>) -> (r: Vec<Word>)
    requires
        tables_wf(tables@),
        forall|i: int| 0 <= i < words@.len() ==> word_ok(#[trigger] words@[i], tables@),
    ensures
        r@ == spec_rank(words@, tables@),
        sorted_desc(r@, tables@),
        forall|x: Word| #[trigger] count_word(r@, x) == count_word(words@, x),
{
    let ghost ws = words@;
    let ghost ts = tables@;
    let mut rest = words;
    let mut out: Vec<Word> = Vec::new();
    let ghost mut i: int = 0;
    proof {
        assert(ws.subrange(0, 0) =~= Seq::<Word>::empty());
        assert(ws.subrange(0, ws.len() as int) =~= ws);
    }
    while rest.len() > 0
        invariant
            ts == tables@,
            tables_wf(ts),
            0 <= i,
            i + rest@.len() == ws.len(),
            rest@ == ws.subrange(i, ws.len() as int),
            forall|k: int| 0 <= k < ws.len() ==> word_ok(#[trigger] ws[k], ts),
            out@ == spec_rank(ws.subrange(0, i), ts),
            forall|k: int| 0 <= k < out@.len() ==> word_ok(#[trigger] out@[k], ts),
        decreases rest@.len(),
    {
        let w = rest.remove(0);
        proof {
            assert(w == ws[i]);
            assert(rest@ =~= ws.subrange(i + 1, ws.len() as int));
        }
        let ghost out0 = out@;
        let ghost wg = w;
        let mut j: usize = 0;
        while j < out.len()
            invariant
                ts == tables@,
                tables_wf(ts),
                out@ == out0,
                w == wg,
                word_ok(w, ts),
                forall|k: int| 0 <= k < out@.len() ==> word_ok(#[trigger] out@[k], ts),
                j <= out@.len(),
                forall|k: int| 0 <= k < j ==> !word_lt(#[trigger] out@[k], w, ts),
            ensures
                out@ == out0,
                w == wg,
                j <= out@.len(),
                forall|k: int| 0 <= k < j ==> !word_lt(#[trigger] out@[k], w, ts),
                j < out@.len() ==> word_lt(out@[j as int], w, ts),
            decreases out@.len() - j,
        {
            if word_below(&out[j], &w, tables) {
                break ;
            }
            j += 1;
        }
        out.insert(j, w);
        proof {
            lemma_insert_desc_at(wg, out0, ts, j as int);
            assert(out@ =~= out0.subrange(0, j as int) + seq![wg] + out0.subrange(
                j as int,
                out0.len() as int,
            ));
            assert(ws.subrange(0, i + 1).drop_last() =~= ws.subrange(0, i));
            assert(ws.subrange(0, i + 1).last() == ws[i]);
            assert(out@ == spec_rank(ws.subrange(0, i + 1), ts));
            i = i + 1;
        }
    }
    proof {
        assert(ws.subrange(0, i) =~= ws);
        lemma_rank_sorted(ws, ts);
        lemma_rank_permutes(ws, ts);
    }
    out
}

/// Descending order: every earlier word's key is at least every later one's.
pub open spec fn sorted_desc(s: Seq<Word>, ts: Seq<(usize, FreqTable)>) -> bool {
    forall|i: int, j: int| 0 <= i <= j < s.len() ==> word_ge(#[trigger] s[i], #[trigger] s[j], ts)
}

/// How many times the word `w` occurs in `s`.
pub open spec fn count_word(s: Seq<Word>, w: Word) -> int
    decreases s.len(),
{
    if s.len() == 0 {
        0
    } else {
        (if s[0] == w {
            1int
        } else {
            0int
        }) + count_word(s.drop_first(), w)
    }
}

/// The comparison key's denominator is always positive.
pub proof fn lemma_den_pos(w: Word, ts: Seq<(usize, FreqTable)>)
    ensures
        word_den(w, ts) >= 1,
        word_num(w, ts) >= 0,
{
    lemma_composite_nonneg(w@, ts);
}

proof fn lemma_ge_trans(a: Word, b: Word, c: Word, ts: Seq<(usize, FreqTable)>)
    requires
        word_ge(a, b, ts),
        word_ge(b, c, ts),
    ensures
        word_ge(a, c, ts),
{
    lemma_den_pos(a, ts);
    lemma_den_pos(b, ts);
    lemma_den_pos(c, ts);
    assert(word_num(a, ts) * word_den(c, ts) >= word_num(c, ts) * word_den(a, ts))
        by (nonlinear_arith)
        requires
            word_num(a, ts) * word_den(b, ts) >= word_num(b, ts) * word_den(a, ts),
            word_num(b, ts) * word_den(c, ts) >= word_num(c, ts) * word_den(b, ts),
            word_den(a, ts) >= 1,
            word_den(b, ts) >= 1,
            word_den(c, ts) >= 1,
    ;
}

proof fn lemma_insert_dominates(b: Word, w: Word, s: Seq<Word>, ts: Seq<(usize, FreqTable)>)
    requires
        word_ge(b, w, ts),
        forall|k: int| 0 <= k < s.len() ==> word_ge(b, #[trigger] s[k], ts),
    ensures
        forall|k: int|
            0 <= k < insert_desc(w, s, ts).len() ==> word_ge(b, #[trigger] insert_desc(w, s, ts)[k], ts),
    decreases s.len(),
{
    if s.len() == 0 {
    } else if word_lt(s[0], w, ts) {
    } else {
        let df = s.drop_first();
        assert(forall|k: int| 0 <= k < df.len() ==> word_ge(b, #[trigger] df[k], ts));
        lemma_insert_dominates(b, w, df, ts);
        assert forall|k: int|
            0 <= k < insert_desc(w, s, ts).len() implies word_ge(
            b,
            #[trigger] insert_desc(w, s, ts)[k],
            ts,
        ) by {
            if k > 0 {
                assert(insert_desc(w, s, ts)[k] == insert_desc(w, df, ts)[k - 1]);
            }
        }
    }
}

proof fn lemma_insert_sorted(w: Word, s: Seq<Word>, ts: Seq<(usize, FreqTable)>)
    requires
        sorted_desc(s, ts),
    ensures
        sorted_desc(insert_desc(w, s, ts), ts),
    decreases s.len(),
{
    let r = insert_desc(w, s, ts);
    if s.len() == 0 {
    } else if word_lt(s[0], w, ts) {
        assert forall|i: int, j: int| 0 <= i <= j < r.len() implies word_ge(
            #[trigger] r[i],
            #[trigger] r[j],
            ts,
        ) by {
            if i == 0 && j > 0 {
                assert(r[j] == s[j - 1]);
                assert(word_ge(w, s[0], ts));
                assert(word_ge(s[0], s[j - 1], ts));
                lemma_ge_trans(w, s[0], s[j - 1], ts);
            } else if i > 0 {
                assert(r[i] == s[i - 1]);
                assert(r[j] == s[j - 1]);
            }
        }
    } else {
        let df = s.drop_first();
        assert(forall|k: int| 0 <= k < df.len() ==> word_ge(s[0], #[trigger] df[k], ts));
        assert(sorted_desc(df, ts)) by {
            assert(forall|i: int, j: int|
                0 <= i <= j < df.len() ==> word_ge(#[trigger] df[i], #[trigger] df[j], ts));
        }
        lemma_insert_sorted(w, df, ts);
        assert(word_ge(s[0], w, ts));
        lemma_insert_dominates(s[0], w, df, ts);
        let ri = insert_desc(w, df, ts);
        assert forall|i: int, j: int| 0 <= i <= j < r.len() implies word_ge(
            #[trigger] r[i],
            #[trigger] r[j],
            ts,
        ) by {
            if i == 0 && j > 0 {
                assert(r[j] == ri[j - 1]);
            } else if i > 0 {
                assert(r[i] == ri[i - 1]);
                assert(r[j] == ri[j - 1]);
            }
        }
    }
}

/// The ranking is sorted descending by composite key.
pub proof fn lemma_rank_sorted(s: Seq<Word>, ts: Seq<(usize, FreqTable)>)
    ensures
        sorted_desc(spec_rank(s, ts), ts),
    decreases s.len(),
{
    if s.len() > 0 {
        lemma_rank_sorted(s.drop_last(), ts);
        lemma_insert_sorted(s.last(), spec_rank(s.drop_last(), ts), ts);
    }
}

proof fn lemma_insert_count(w: Word, s: Seq<Word>, ts: Seq<(usize, FreqTable)>, x: Word)
    ensures
        count_word(insert_desc(w, s, ts), x) == count_word(s, x) + (if x == w {
            1int
        } else {
            0int
        }),
    decreases s.len(),
{
    let r = insert_desc(w, s, ts);
    if s.len() == 0 {
        assert(r[0] == w);
        assert(r.drop_first() =~= Seq::<Word>::empty());
        assert(count_word(r.drop_first(), x) == 0);
    } else if word_lt(s[0], w, ts) {
        assert(r[0] == w);
        assert(r.drop_first() =~= s);
        assert(count_word(r, x) == (if r[0] == x {
            1int
        } else {
            0int
        }) + count_word(s, x));
    } else {
        let df = s.drop_first();
        lemma_insert_count(w, df, ts, x);
        assert(r[0] == s[0]);
        assert(r.drop_first() =~= insert_desc(w, df, ts));
        assert(count_word(r, x) == (if r[0] == x {
            1int
        } else {
            0int
        }) + count_word(insert_desc(w, df, ts), x));
    }
}

proof fn lemma_count_drop_last(s: Seq<Word>, x: Word)
    requires
        s.len() > 0,
    ensures
        count_word(s, x) == count_word(s.drop_last(), x) + (if s.last() == x {
            1int
        } else {
            0int
        }),
    decreases s.len(),
{
    if s.len() == 1 {
        assert(s.drop_first() =~= Seq::<Word>::empty());
        assert(s.drop_last() =~= Seq::<Word>::empty());
    } else {
        let df = s.drop_first();
        lemma_count_drop_last(df, x);
        assert(df.last() == s.last());
        assert(df.drop_last() =~= s.drop_last().drop_first());
        assert(s.drop_last()[0] == s[0]);
    }
}

/// The ranking is a permutation of its input: every word occurs in the
/// output exactly as often as in the input.
pub proof fn lemma_rank_permutes(s: Seq<Word>, ts: Seq<(usize, FreqTable)>)
    ensures
        forall|x: Word| #[trigger] count_word(spec_rank(s, ts), x) == count_word(s, x),
    decreases s.len(),
{
    if s.len() > 0 {
        lemma_rank_permutes(s.drop_last(), ts);
        assert forall|x: Word| #[trigger]
            count_word(spec_rank(s, ts), x) == count_word(s, x) by {
            lemma_insert_count(s.last(), spec_rank(s.drop_last(), ts), ts, x);
            lemma_count_drop_last(s, x);
        }
    }
}

proof fn lemma_composite_unseen(w: Word, ts: Seq<(usize, FreqTable)>)
    requires
        forall|t: int, g: int|
            0 <= t < ts.len() && 0 <= g < grams_spec(w@, (#[trigger] ts[t]).0 as int).len()
                ==> !map_of(ts[t].1@).dom().contains(
                #[trigger] grams_spec(w@, ts[t].0 as int)[g],
            ),
    ensures
        composite_score(w@, ts) == 0,
    decreases ts.len(),
{
    if ts.len() > 0 {
        assert(forall|t: int, g: int|
            0 <= t < ts.drop_last().len() && 0 <= g < grams_spec(
                w@,
                (#[trigger] ts.drop_last()[t]).0 as int,
            ).len() ==> !map_of(ts.drop_last()[t].1@).dom().contains(
                #[trigger] grams_spec(w@, ts.drop_last()[t].0 as int)[g],
            ));
        lemma_composite_unseen(w, ts.drop_last());
        assert(ts[ts.len() - 1] == ts.last());
        lemma_score_unseen(w@, ts.last().0 as int, map_of(ts.last().1@));
    }
}

/// A word all of whose grams are unseen in every configured table never
/// outranks any other word: its composite key is the minimum, 0.
pub proof fn lemma_unseen_ranks_no_higher(w: Word, x: Word, ts: Seq<(usize, FreqTable)>)
    requires
        forall|t: int, g: int|
            0 <= t < ts.len() && 0 <= g < grams_spec(w@, (#[trigger] ts[t]).0 as int).len()
                ==> !map_of(ts[t].1@).dom().contains(
                #[trigger] grams_spec(w@, ts[t].0 as int)[g],
            ),
    ensures
        word_ge(x, w, ts),
{
    lemma_composite_unseen(w, ts);
    lemma_den_pos(w, ts);
    lemma_den_pos(x, ts);
    assert(word_num(w, ts) == 0);
    assert(word_num(x, ts) * word_den(w, ts) >= 0) by (nonlinear_arith)
        requires
            word_num(x, ts) >= 0,
            word_den(w, ts) >= 1,
    ;
    assert(word_num(w, ts) * word_den(x, ts) == 0) by (nonlinear_arith)
        requires
            word_num(w, ts) == 0,
    ;
}

} // verus!
