//! Frequency aggregation and scoring.
//!
//! A frequency table for a fixed window length maps each gram to the weight
//! accumulated for it over a corpus of weighted words: every occurrence of a
//! gram in a word's window sequence contributes that word's weight once.
//! A word is scored against a table as the sum of the table's values for the
//! word's own grams, with absent grams contributing zero.

use vstd::prelude::*;

use crate::grams::{gram_count_spec, grams_spec, Word};

verus! {

/// The value a frequency table associates with `g`: the stored weight, or 0
/// when `g` is absent.
pub open spec fn lookup(m: Map<Seq<char>, u64>, g: Seq<char>) -> int {
    if m.dom().contains(g) {
        m[g] as int
    } else {
        0
    }
}

/// The mapping described by a list of gram–weight entries, later entries
/// taking precedence.
pub open spec fn map_of(entries: Seq<(Seq<char>, u64)>) -> Map<Seq<char>, u64>
    decreases entries.len(),
{
    if entries.len() == 0 {
        Map::empty()
    } else {
        map_of(entries.drop_last()).insert(entries.last().0, entries.last().1)
    }
}

/// Well-formedness of an entry list: no gram appears under two entries.
pub open spec fn table_wf(entries: Seq<(Seq<char>, u64)>) -> bool {
    forall|i: int, j: int|
        0 <= i < entries.len() && 0 <= j < entries.len() && i != j ==> #[trigger] entries[i].0
            != #[trigger] entries[j].0
}

/// The sum of the weights stored in an entry list.
pub open spec fn weights_sum(entries: Seq<(Seq<char>, u64)>) -> int
    decreases entries.len(),
{
    if entries.len() == 0 {
        0
    } else {
        weights_sum(entries.drop_last()) + entries.last().1
    }
}

/// How many times the gram `g` occurs in the window sequence `gs`.
pub open spec fn occ(gs: Seq<Seq<char>>, g: Seq<char>) -> int
    decreases gs.len(),
{
    if gs.len() == 0 {
        0
    } else {
        occ(gs.drop_last(), g) + if gs.last() == g {
            1int
        } else {
            0int
        }
    }
}

/// The sum of the table values for the windows in `gs`, absent windows
/// counting as 0.
pub open spec fn grams_score(gs: Seq<Seq<char>>, m: Map<Seq<char>, u64>) -> int
    decreases gs.len(),
{
    if gs.len() == 0 {
        0
    } else {
        grams_score(gs.drop_last(), m) + lookup(m, gs.last())
    }
}

/// The raw score of `w` at window length `l` against the table `m`.
pub open spec fn spec_score(w: Seq<char>, l: int, m: Map<Seq<char>, u64>) -> int {
    grams_score(grams_spec(w, l), m)
}

/// One corpus record: a word together with its non-negative integer weight.
/// Duplicate words are allowed and accumulate independently.
pub struct CorpusEntry {
    pub word: Word,
    pub weight: u64,
}

/// The weight the corpus `c` accumulates for the gram `g` at window length
/// `l`: each occurrence of `g` in an entry's window sequence contributes that
/// entry's weight.
pub open spec fn corpus_gram_weight(c: Seq<CorpusEntry>, l: int, g: Seq<char>) -> int
    decreases c.len(),
{
    if c.len() == 0 {
        0
    } else {
        corpus_gram_weight(c.drop_last(), l, g) + c.last().weight * occ(
            grams_spec(c.last().word@, l),
            g,
        )
    }
}

/// The total weight the corpus `c` spreads over all grams at window length
/// `l`: the sum over entries of (weight × window count).
pub open spec fn corpus_mass(c: Seq<CorpusEntry>, l: int) -> int
    decreases c.len(),
{
    if c.len() == 0 {
        0
    } else {
        corpus_mass(c.drop_last(), l) + c.last().weight * gram_count_spec(c.last().word@, l)
    }
}

/// A frequency table for one window length: a mapping from gram to
/// accumulated weight, with each gram stored at most once.
pub struct FreqTable {
    entries: Vec<(Vec<char>, u64)>,
}

impl View for FreqTable {
    type V = Seq<(Seq<char>, u64)>;

    closed spec fn view(&self) -> Seq<(Seq<char>, u64)> {
        self.entries@.map_values(|e: (Vec<char>, u64)| (e.0@, e.1))
    }
}

/// Membership in the mapping of an entry list is exactly membership among its
/// entries' grams.
pub proof fn lemma_map_of_keys(entries: Seq<(Seq<char>, u64)>, g: Seq<char>)
    ensures
        map_of(entries).dom().contains(g) <==> exists|i: int|
            0 <= i < entries.len() && #[trigger] entries[i].0 == g,
    decreases entries.len(),
{
    if entries.len() == 0 {
    } else {
        lemma_map_of_keys(entries.drop_last(), g);
        if entries.last().0 == g {
            assert(entries[entries.len() - 1].0 == g);
        } else {
            if exists|i: int| 0 <= i < entries.len() && #[trigger] entries[i].0 == g {
                let i = choose|i: int| 0 <= i < entries.len() && #[trigger] entries[i].0 == g;
                assert(entries.drop_last()[i].0 == g);
            }
        }
    }
}

/// In a well-formed entry list, the mapping returns each entry's own weight.
pub proof fn lemma_map_of_index(entries: Seq<(Seq<char>, u64)>, i: int)
    requires
        table_wf(entries),
        0 <= i < entries.len(),
    ensures
        map_of(entries).dom().contains(entries[i].0),
        map_of(entries)[entries[i].0] == entries[i].1,
    decreases entries.len(),
{
    if i < entries.len() - 1 {
        assert(table_wf(entries.drop_last()));
        lemma_map_of_index(entries.drop_last(), i);
        assert(entries.drop_last()[i] == entries[i]);
        assert(entries.last().0 != entries[i].0);
    }
}

proof fn lemma_map_of_push(entries: Seq<(Seq<char>, u64)>, g: Seq<char>, v: u64)
    ensures
        map_of(entries.push((g, v))) == map_of(entries).insert(g, v),
        weights_sum(entries.push((g, v))) == weights_sum(entries) + v,
{
    assert(entries.push((g, v)).drop_last() =~= entries);
}

proof fn lemma_map_of_update(entries: Seq<(Seq<char>, u64)>, i: int, v: u64)
    requires
        table_wf(entries),
        0 <= i < entries.len(),
    ensures
        map_of(entries.update(i, (entries[i].0, v))) == map_of(entries).insert(entries[i].0, v),
        weights_sum(entries.update(i, (entries[i].0, v))) == weights_sum(entries) - entries[i].1
            + v,
    decreases entries.len(),
{
    let e2 = entries.update(i, (entries[i].0, v));
    if i == entries.len() - 1 {
        assert(e2.drop_last() =~= entries.drop_last());
        assert(map_of(entries.drop_last()).insert(entries[i].0, entries[i].1).insert(
            entries[i].0,
            v,
        ) =~= map_of(entries.drop_last()).insert(entries[i].0, v));
    } else {
        assert(table_wf(entries.drop_last()));
        assert(entries.drop_last()[i] == entries[i]);
        lemma_map_of_update(entries.drop_last(), i, v);
        assert(e2.drop_last() =~= entries.drop_last().update(i, (entries[i].0, v)));
        assert(e2.last() == entries.last());
        assert(entries.last().0 != entries[i].0);
        assert(map_of(entries.drop_last()).insert(entries[i].0, v).insert(
            entries.last().0,
            entries.last().1,
        ) =~= map_of(entries.drop_last()).insert(entries.last().0, entries.last().1).insert(
            entries[i].0,
            v,
        ));
    }
}

/// Every stored weight, and hence every lookup, is bounded by the sum of all
/// stored weights.
pub proof fn lemma_lookup_le_sum(entries: Seq<(Seq<char>, u64)>, g: Seq<char>)
    ensures
        0 <= lookup(map_of(entries), g),
        lookup(map_of(entries), g) <= weights_sum(entries),
    decreases entries.len(),
{
    if entries.len() == 0 {
    } else {
        lemma_lookup_le_sum(entries.drop_last(), g);
    }
}

impl FreqTable {
    /// The empty table.
    pub fn new() -> (t: FreqTable)
        ensures
            t@ =~= Seq::<(Seq<char>, u64)>::empty(),
            table_wf(t@),
    {
        FreqTable { entries: Vec::new() }
    }

    fn find(&self, gram: &Vec<char>) -> (r: Option<usize>)
        ensures
            match r {
                Some(i) => 0 <= i < self@.len() && self@[i as int].0 == gram@,
                None => forall|i: int| 0 <= i < self@.len() ==> #[trigger] self@[i].0 != gram@,
            },
    {
        let mut i: usize = 0;
        while i < self.entries.len()
            invariant
                i <= self@.len(),
                self@.len() == self.entries@.len(),
                forall|k: int| 0 <= k < i ==> #[trigger] self@[k].0 != gram@,
            decreases self@.len() - i,
        {
            if grams_equal(&self.entries[i].0, gram) {
                return Some(i);
            }
            i += 1;
        }
        None
    }

    /// The accumulated weight for `gram`, with 0 for a gram not in the table.
    pub fn get(&self, gram: &Vec<char>) -> (r: u64)
        requires
            table_wf(self@),
        ensures
            r == lookup(map_of(self@), gram@),
    {
        match self.find(gram) {
            Some(i) => {
                proof {
                    lemma_map_of_index(self@, i as int);
                }
                self.entries[i].1
            },
            None => {
                proof {
                    lemma_map_of_keys(self@, gram@);
                }
                0
            },
        }
    }

    /// The table's contents as a fresh list of gram–weight pairs, in
    /// insertion order.
    pub fn to_entries(&self) -> (r: Vec<(Vec<char>, u64)>)
        ensures
            r@.len() == self@.len(),
            forall|i: int|
                0 <= i < r@.len() ==> (#[trigger] r@[i]).0@ == self@[i].0 && r@[i].1
                    == self@[i].1,
    {
        let mut r: Vec<(Vec<char>, u64)> = Vec::new();
        let mut i: usize = 0;
        while i < self.entries.len()
            invariant
                self@.len() == self.entries@.len(),
                i <= self@.len(),
                r@.len() == i,
                forall|k: int|
                    0 <= k < i ==> (#[trigger] r@[k]).0@ == self@[k].0 && r@[k].1 == self@[k].1,
            decreases self@.len() - i,
        {
            let e = &self.entries[i];
            let mut g: Vec<char> = Vec::new();
            let mut j: usize = 0;
            while j < e.0.len()
                invariant
                    j <= e.0@.len(),
                    g@ =~= e.0@.subrange(0, j as int),
                decreases e.0@.len() - j,
            {
                g.push(e.0[j]);
                j += 1;
            }
            proof {
                assert(g@ =~= e.0@);
            }
            r.push((g, e.1));
            i += 1;
        }
        r
    }

    /// The sum of the accumulated weights over all entries of the table.
    pub fn total_weight(&self) -> (s: u64)
        requires
            weights_sum(self@) <= u64::MAX,
        ensures
            s == weights_sum(self@),
    {
        let ghost es = self@;
        let mut s: u64 = 0;
        let mut i: usize = 0;
        proof {
            assert(es.subrange(0, 0) =~= Seq::<(Seq<char>, u64)>::empty());
        }
        while i < self.entries.len()
            invariant
                es == self@,
                self@.len() == self.entries@.len(),
                i <= es.len(),
                weights_sum(es) <= u64::MAX,
                s == weights_sum(es.subrange(0, i as int)),
            decreases es.len() - i,
        {
            proof {
                lemma_weights_prefix(es, i as int + 1);
                assert(es.subrange(0, i as int + 1).drop_last() =~= es.subrange(0, i as int));
                assert(es.subrange(0, i as int + 1).last() == es[i as int]);
            }
            s = s + self.entries[i].1;
            i += 1;
        }
        proof {
            assert(es.subrange(0, i as int) =~= es);
        }
        s
    }

    /// Adds `weight` to the total stored for `gram`, initializing an absent
    /// gram to 0 before adding.
    pub fn add_weight(&mut self, gram: Vec<char>, weight: u64)
        requires
            table_wf(old(self)@),
            lookup(map_of(old(self)@), gram@) + weight <= u64::MAX,
        ensures
            table_wf(final(self)@),
            map_of(final(self)@) == map_of(old(self)@).insert(
                gram@,
                (lookup(map_of(old(self)@), gram@) + weight) as u64,
            ),
            weights_sum(final(self)@) == weights_sum(old(self)@) + weight,
    {
        let ghost entries0 = self@;
        match self.find(&gram) {
            Some(i) => {
                proof {
                    lemma_map_of_index(entries0, i as int);
                }
                let v = self.entries[i].1;
                self.entries.set(i, (gram, v + weight));
                proof {
                    assert(self@ =~= entries0.update(i as int, (entries0[i as int].0, (v
                        + weight) as u64)));
                    lemma_map_of_update(entries0, i as int, (v + weight) as u64);
                    assert(table_wf(self@));
                }
            },
            None => {
                proof {
                    lemma_map_of_keys(entries0, gram@);
                }
                let ghost gv = gram@;
                self.entries.push((gram, weight));
                proof {
                    assert(self@ =~= entries0.push((gv, weight)));
                    lemma_map_of_push(entries0, gv, weight);
                    assert forall|i: int, j: int|
                        0 <= i < self@.len() && 0 <= j < self@.len() && i != j implies #[trigger] self@[i].0
                        != #[trigger] self@[j].0 by {
                        if i < self@.len() - 1 && j < self@.len() - 1 {
                            assert(entries0[i].0 != entries0[j].0);
                        }
                    }
                }
            },
        }
    }
}

proof fn lemma_weights_prefix(entries: Seq<(Seq<char>, u64)>, j: int)
    requires
        0 <= j <= entries.len(),
    ensures
        weights_sum(entries.subrange(0, j)) <= weights_sum(entries),
    decreases entries.len(),
{
    if j == entries.len() {
        assert(entries.subrange(0, j) =~= entries);
    } else {
        assert(entries.subrange(0, j) =~= entries.drop_last().subrange(0, j));
        lemma_weights_prefix(entries.drop_last(), j);
    }
}

proof fn lemma_occ_step(gs: Seq<Seq<char>>, j: int, g: Seq<char>)
    requires
        0 <= j < gs.len(),
    ensures
        occ(gs.subrange(0, j + 1), g) == occ(gs.subrange(0, j), g) + if gs[j] == g {
            1int
        } else {
            0int
        },
{
    assert(gs.subrange(0, j + 1).drop_last() =~= gs.subrange(0, j));
    assert(gs.subrange(0, j + 1).last() == gs[j]);
}

proof fn lemma_grams_score_step(gs: Seq<Seq<char>>, m: Map<Seq<char>, u64>, j: int)
    requires
        0 <= j < gs.len(),
    ensures
        grams_score(gs.subrange(0, j + 1), m) == grams_score(gs.subrange(0, j), m) + lookup(
            m,
            gs[j],
        ),
{
    assert(gs.subrange(0, j + 1).drop_last() =~= gs.subrange(0, j));
    assert(gs.subrange(0, j + 1).last() == gs[j]);
}

proof fn lemma_grams_score_prefix(gs: Seq<Seq<char>>, m: Map<Seq<char>, u64>, j: int)
    requires
        0 <= j <= gs.len(),
    ensures
        grams_score(gs.subrange(0, j), m) <= grams_score(gs, m),
    decreases gs.len(),
{
    if j == gs.len() {
        assert(gs.subrange(0, j) =~= gs);
    } else {
        assert(gs.subrange(0, j) =~= gs.drop_last().subrange(0, j));
        lemma_grams_score_prefix(gs.drop_last(), m, j);
    }
}

proof fn lemma_contains_step(gs: Seq<Seq<char>>, j: int, g: Seq<char>)
    requires
        0 <= j < gs.len(),
    ensures
        gs.subrange(0, j + 1).contains(g) <==> (gs.subrange(0, j).contains(g) || gs[j] == g),
{
    let a = gs.subrange(0, j + 1);
    let b = gs.subrange(0, j);
    if b.contains(g) {
        let q = choose|q: int| 0 <= q < b.len() && b[q] == g;
        assert(a[q] == g);
    }
    if gs[j] == g {
        assert(a[j] == g);
    }
    if a.contains(g) {
        let q = choose|q: int| 0 <= q < a.len() && a[q] == g;
        if q < j {
            assert(b[q] == g);
        }
    }
}

proof fn lemma_cgw_step(c: Seq<CorpusEntry>, l: int, i: int, g: Seq<char>)
    requires
        0 <= i < c.len(),
    ensures
        corpus_gram_weight(c.subrange(0, i + 1), l, g) == corpus_gram_weight(c.subrange(0, i), l, g)
            + c[i].weight * occ(grams_spec(c[i].word@, l), g),
{
    assert(c.subrange(0, i + 1).drop_last() =~= c.subrange(0, i));
    assert(c.subrange(0, i + 1).last() == c[i]);
}

proof fn lemma_mass_step(c: Seq<CorpusEntry>, l: int, i: int)
    requires
        0 <= i < c.len(),
    ensures
        corpus_mass(c.subrange(0, i + 1), l) == corpus_mass(c.subrange(0, i), l) + c[i].weight
            * gram_count_spec(c[i].word@, l),
{
    assert(c.subrange(0, i + 1).drop_last() =~= c.subrange(0, i));
    assert(c.subrange(0, i + 1).last() == c[i]);
}

proof fn lemma_mass_prefix_le(c: Seq<CorpusEntry>, l: int, i: int)
    requires
        1 <= l,
        0 <= i <= c.len(),
    ensures
        corpus_mass(c.subrange(0, i), l) <= corpus_mass(c, l),
    decreases c.len(),
{
    if i == c.len() {
        assert(c.subrange(0, i) =~= c);
    } else {
        assert(c.subrange(0, i) =~= c.drop_last().subrange(0, i));
        lemma_mass_prefix_le(c.drop_last(), l, i);
        assert(c.last().weight * gram_count_spec(c.last().word@, l) >= 0) by (nonlinear_arith)
            requires
                c.last().weight >= 0,
                gram_count_spec(c.last().word@, l) >= 0,
        ;
    }
}

/// Builds the frequency table of a corpus for one window length: every gram
/// occurrence in an entry's window sequence adds the entry's weight to that
/// gram's total. The result holds exactly the grams that occur in the corpus,
/// each mapped to its accumulated weight, and its stored weights sum to the
/// corpus's total mass at this window length.
pub fn build_gram_freq_table(corpus: &Vec<CorpusEntry>, gram_length: usize) -> (t: FreqTable)
    requires
        1 <= gram_length,
        forall|i: int|
            0 <= i < corpus@.len() ==> #[trigger] corpus@[i].word@.len() + 2 <= usize::MAX,
        corpus_mass(corpus@, gram_length as int) <= u64::MAX,
    ensures
        table_wf(t@),
        forall|g: Seq<char>| #[trigger]
            lookup(map_of(t@), g) == corpus_gram_weight(corpus@, gram_length as int, g),
        forall|g: Seq<char>| #[trigger]
            map_of(t@).dom().contains(g) <==> exists|i: int|
                0 <= i < corpus@.len() && #[trigger] grams_spec(
                    corpus@[i].word@,
                    gram_length as int,
                ).contains(g),
        weights_sum(t@) == corpus_mass(corpus@, gram_length as int),
{
    let ghost c = corpus@;
    let ghost l = gram_length as int;
    let mut t = FreqTable::new();
    let mut i: usize = 0;
    proof {
        assert(c.subrange(0, 0) =~= Seq::<CorpusEntry>::empty());
    }
    while i < corpus.len()
        invariant
            c == corpus@,
            l == gram_length as int,
            1 <= gram_length,
            i <= c.len(),
            forall|k: int| 0 <= k < c.len() ==> #[trigger] c[k].word@.len() + 2 <= usize::MAX,
            corpus_mass(c, l) <= u64::MAX,
            table_wf(t@),
            weights_sum(t@) == corpus_mass(c.subrange(0, i as int), l),
            forall|g: Seq<char>| #[trigger]
                lookup(map_of(t@), g) == corpus_gram_weight(c.subrange(0, i as int), l, g),
            forall|g: Seq<char>| #[trigger]
                map_of(t@).dom().contains(g) <==> exists|k: int|
                    0 <= k < i && #[trigger] grams_spec(c[k].word@, l).contains(g),
        decreases c.len() - i,
    {
        let entry = &corpus[i];
        let weight = entry.weight;
        let ghost gsw = grams_spec(c[i as int].word@, l);
        let ghost base = c.subrange(0, i as int);
        let mut it = entry.word.grams(gram_length);
        proof {
            assert(gsw.subrange(0, 0) =~= Seq::<Seq<char>>::empty());
        }
        loop
            invariant
                c == corpus@,
                l == gram_length as int,
                1 <= gram_length,
                0 <= i < c.len(),
                base == c.subrange(0, i as int),
                gsw == grams_spec(c[i as int].word@, l),
                weight == c[i as int].weight,
                forall|k: int| 0 <= k < c.len() ==> #[trigger] c[k].word@.len() + 2 <= usize::MAX,
                corpus_mass(c, l) <= u64::MAX,
                it.wf(),
                it.word_view() == c[i as int].word@,
                it.gram_len() == l,
                0 <= it.pos() <= gsw.len(),
                table_wf(t@),
                weights_sum(t@) == corpus_mass(base, l) + weight * it.pos(),
                forall|g: Seq<char>| #[trigger]
                    lookup(map_of(t@), g) == corpus_gram_weight(base, l, g) + weight * occ(
                        gsw.subrange(0, it.pos()),
                        g,
                    ),
                forall|g: Seq<char>| #[trigger]
                    map_of(t@).dom().contains(g) <==> (exists|k: int|
                        0 <= k < i && #[trigger] grams_spec(c[k].word@, l).contains(g))
                        || gsw.subrange(0, it.pos()).contains(g),
            ensures
                table_wf(t@),
                weights_sum(t@) == corpus_mass(base, l) + weight * gsw.len(),
                forall|g: Seq<char>| #[trigger]
                    lookup(map_of(t@), g) == corpus_gram_weight(base, l, g) + weight * occ(gsw, g),
                forall|g: Seq<char>| #[trigger]
                    map_of(t@).dom().contains(g) <==> (exists|k: int|
                        0 <= k < i && #[trigger] grams_spec(c[k].word@, l).contains(g))
                        || gsw.contains(g),
            decreases gsw.len() - it.pos(),
        {
            let ghost p = it.pos();
            let ghost t0 = t@;
            match it.next() {
                Some(g) => {
                    let ghost gv = g@;
                    proof {
                        assert(gv == gsw[p]);
                        lemma_lookup_le_sum(t0, gv);
                        assert(weight * (p + 1) == weight * p + weight && weight * (p + 1)
                            <= weight * gsw.len()) by (nonlinear_arith)
                            requires
                                weight >= 0,
                                p + 1 <= gsw.len(),
                        ;
                        lemma_mass_step(c, l, i as int);
                        lemma_mass_prefix_le(c, l, i as int + 1);
                        assert(gsw.len() == gram_count_spec(c[i as int].word@, l));
                        assert(lookup(map_of(t0), gv) + weight <= u64::MAX);
                    }
                    t.add_weight(g, weight);
                    proof {
                        assert forall|g2: Seq<char>| #[trigger]
                            lookup(map_of(t@), g2) == corpus_gram_weight(base, l, g2) + weight
                                * occ(gsw.subrange(0, p + 1), g2) by {
                            lemma_occ_step(gsw, p, g2);
                            let o = occ(gsw.subrange(0, p), g2);
                            if g2 == gv {
                                assert(weight * (o + 1) == weight * o + weight) by (nonlinear_arith);
                            } else {
                                assert(lookup(map_of(t@), g2) == lookup(map_of(t0), g2));
                            }
                        }
                        assert forall|g2: Seq<char>| #[trigger]
                            map_of(t@).dom().contains(g2) <==> (exists|k: int|
                                0 <= k < i && #[trigger] grams_spec(c[k].word@, l).contains(g2))
                                || gsw.subrange(0, p + 1).contains(g2) by {
                            lemma_contains_step(gsw, p, g2);
                        }
                    }
                },
                None => {
                    proof {
                        assert(gsw.subrange(0, it.pos()) =~= gsw);
                    }
                    break ;
                },
            }
        }
        proof {
            assert forall|g: Seq<char>| #[trigger]
                lookup(map_of(t@), g) == corpus_gram_weight(c.subrange(0, i as int + 1), l, g) by {
                lemma_cgw_step(c, l, i as int, g);
            }
            lemma_mass_step(c, l, i as int);
            assert forall|g: Seq<char>| #[trigger]
                map_of(t@).dom().contains(g) <==> exists|k: int|
                    0 <= k < i as int + 1 && #[trigger] grams_spec(c[k].word@, l).contains(g) by {
                if map_of(t@).dom().contains(g) {
                    if gsw.contains(g) {
                        assert(grams_spec(c[i as int].word@, l).contains(g));
                    }
                }
            }
        }
        i += 1;
    }
    proof {
        assert(c.subrange(0, i as int) =~= c);
    }
    t
}

/// Scores a word against a frequency table built for the same window length:
/// the sum over the word's grams of the table's value for that gram, with 0
/// for absent grams — and 0 for a word whose gram sequence is empty.
pub fn score_word(word: &Word, gram_length: usize, table: &FreqTable) -> (score: u64)
    requires
        1 <= gram_length,
        word@.len() + 2 <= usize::MAX,
        table_wf(table@),
        spec_score(word@, gram_length as int, map_of(table@)) <= u64::MAX,
    ensures
        score == spec_score(word@, gram_length as int, map_of(table@)),
{
    let ghost gs = grams_spec(word@, gram_length as int);
    let ghost m = map_of(table@);
    let mut it = word.grams(gram_length);
    let mut score: u64 = 0;
    proof {
        assert(gs.subrange(0, 0) =~= Seq::<Seq<char>>::empty());
    }
    loop
        invariant
            it.wf(),
            it.word_view() == word@,
            it.gram_len() == gram_length,
            0 <= it.pos() <= gs.len(),
            table_wf(table@),
            gs == grams_spec(word@, gram_length as int),
            m == map_of(table@),
            grams_score(gs, m) <= u64::MAX,
            score == grams_score(gs.subrange(0, it.pos()), m),
        ensures
            score == grams_score(gs, m),
        decreases gs.len() - it.pos(),
    {
        let ghost p = it.pos();
        match it.next() {
            Some(g) => {
                let v = table.get(&g);
                proof {
                    assert(g@ == gs[p]);
                    lemma_grams_score_step(gs, m, p);
                    lemma_grams_score_prefix(gs, m, p + 1);
                }
                score = score + v;
            },
            None => {
                proof {
                    assert(gs.subrange(0, it.pos()) =~= gs);
                }
                break ;
            },
        }
    }
    score
}

proof fn lemma_grams_score_absent(gs: Seq<Seq<char>>, m: Map<Seq<char>, u64>)
    requires
        forall|i: int| 0 <= i < gs.len() ==> !m.dom().contains(#[trigger] gs[i]),
    ensures
        grams_score(gs, m) == 0,
    decreases gs.len(),
{
    if gs.len() > 0 {
        assert(forall|i: int|
            0 <= i < gs.drop_last().len() ==> #[trigger] gs.drop_last()[i] == gs[i]);
        lemma_grams_score_absent(gs.drop_last(), m);
        assert(!m.dom().contains(gs[gs.len() - 1]));
    }
}

/// A word whose grams are all absent from the table scores exactly 0.
pub proof fn lemma_score_unseen(w: Seq<char>, l: int, m: Map<Seq<char>, u64>)
    requires
        forall|i: int|
            0 <= i < grams_spec(w, l).len() ==> !m.dom().contains(#[trigger] grams_spec(w, l)[i]),
    ensures
        spec_score(w, l, m) == 0,
{
    lemma_grams_score_absent(grams_spec(w, l), m);
}

fn grams_equal(a: &Vec<char>, b: &Vec<char>) -> (r: bool)
    ensures
        r <==> a@ == b@,
{
    if a.len() != b.len() {
        return false;
    }
    let mut i: usize = 0;
    while i < a.len()
        invariant
            i <= a@.len(),
            a@.len() == b@.len(),
            forall|k: int| 0 <= k < i ==> a@[k] == b@[k],
        decreases a@.len() - i,
    {
        if a[i] != b[i] {
            return false;
        }
        i += 1;
    }
    proof {
        assert(a@ =~= b@);
    }
    true
}

} // verus!
