//! Sliding-window n-gram extraction over boundary-padded words.
//!
//! A word of `n` characters is padded with a start sentinel `'^'` and an end
//! sentinel `'$'`, giving a padded sequence of length `n + 2`. The grams of
//! window length `l` are the contiguous windows of length `l` over that
//! padded sequence, in increasing order of their starting position.

use vstd::prelude::*;

verus! {

/// The padded form of a word: start sentinel, the word's characters, end sentinel.
pub open spec fn padded(w: Seq<char>) -> Seq<char> {
    seq!['^'] + w + seq!['$']
}

/// How many windows of length `l` fit entirely inside the padded form of `w`:
/// `max((w.len() + 2) - l + 1, 0)`.
pub open spec fn gram_count_spec(w: Seq<char>, l: int) -> int {
    if l <= w.len() + 2 {
        w.len() + 2 - l + 1
    } else {
        0
    }
}

/// The window of length `l` that starts at position `p` in the padded form of `w`.
pub open spec fn gram_at(w: Seq<char>, l: int, p: int) -> Seq<char> {
    padded(w).subrange(p, p + l)
}

/// All windows of length `l` over the padded form of `w`, ordered by starting position.
pub open spec fn grams_spec(w: Seq<char>, l: int) -> Seq<Seq<char>> {
    Seq::new(gram_count_spec(w, l) as nat, |i: int| gram_at(w, l, i))
}

/// The number of grams equals the number of valid window starting positions:
/// `max((w.len() + 2) - l + 1, 0)`, derivable without enumerating the windows.
pub proof fn lemma_gram_count_agrees(w: Seq<char>, l: int)
    requires
        1 <= l,
    ensures
        grams_spec(w, l).len() == gram_count_spec(w, l),
        gram_count_spec(w, l) == if w.len() + 2 - l + 1 >= 0 {
            w.len() + 2 - l + 1
        } else {
            0
        },
{
}

/// A word: an immutable sequence of Unicode scalar values, indexed by
/// character (scalar value), not by byte.
#[derive(Debug, PartialEq, Eq)]
pub struct Word {
    chars: Vec<char>,
}

impl View for Word {
    type V = Seq<char>;

    closed spec fn view(&self) -> Seq<char> {
        self.chars@
    }
}

impl Word {
    /// Builds a word from its characters, in order.
    pub fn from_chars(chars: Vec<char>) -> (w: Word)
        ensures
            w@ == chars@,
    {
        Word { chars }
    }

    /// The number of characters in the word, sentinels not counted.
    pub fn len(&self) -> (n: usize)
        ensures
            n == self@.len(),
    {
        self.chars.len()
    }

    /// The word's characters, in order, as a fresh vector.
    pub fn to_chars(&self) -> (cs: Vec<char>)
        ensures
            cs@ == self@,
    {
        let mut cs: Vec<char> = Vec::new();
        let mut i: usize = 0;
        while i < self.chars.len()
            invariant
                i <= self@.len(),
                cs@ =~= self@.subrange(0, i as int),
            decreases self@.len() - i,
        {
            cs.push(self.chars[i]);
            i += 1;
        }
        proof {
            assert(cs@ =~= self@);
        }
        cs
    }

    /// The character at `index` in the padded form of the word: `'^'` at 0,
    /// `'$'` at the end, the word's own characters in between.
    pub fn char_at_with_stops(&self, index: usize) -> (c: char)
        requires
            index < self@.len() + 2,
            self@.len() + 2 <= usize::MAX,
        ensures
            c == padded(self@)[index as int],
    {
        if index == 0 {
            '^'
        } else if index == self.chars.len() + 1 {
            '$'
        } else {
            self.chars[index - 1]
        }
    }

    /// The length of the padded form: the character count plus the two sentinels.
    pub fn len_with_stops(&self) -> (n: usize)
        requires
            self@.len() + 2 <= usize::MAX,
        ensures
            n == self@.len() + 2,
    {
        self.chars.len() + 2
    }

    /// How many grams of length `gram_length` the word yields.
    pub fn gram_count(&self, gram_length: usize) -> (n: usize)
        requires
            1 <= gram_length,
            self@.len() + 2 <= usize::MAX,
        ensures
            n == gram_count_spec(self@, gram_length as int),
    {
        let m = self.len_with_stops();
        if gram_length <= m {
            m - gram_length + 1
        } else {
            0
        }
    }

    /// Starts a restartable pass over the word's grams of length `gram_length`.
    pub fn grams(&self, gram_length: usize) -> (it: GramIterator)
        requires
            1 <= gram_length,
            self@.len() + 2 <= usize::MAX,
        ensures
            it.wf(),
            it.word_view() == self@,
            it.gram_len() == gram_length,
            it.pos() == 0,
    {
        GramIterator { word: self, gram_length, position: 0 }
    }
}

/// Yields the grams of one word, one valid starting position at a time.
pub struct GramIterator<'a> {
    word: &'a Word,
    gram_length: usize,
    position: usize,
}

impl<'a> GramIterator<'a> {
    /// The characters of the word being walked.
    pub closed spec fn word_view(&self) -> Seq<char> {
        self.word@
    }

    /// The window length this iterator was started with.
    pub closed spec fn gram_len(&self) -> int {
        self.gram_length as int
    }

    /// The next starting position to be tried.
    pub closed spec fn pos(&self) -> int {
        self.position as int
    }

    /// The iterator's internal invariant.
    pub open spec fn wf(&self) -> bool {
        &&& 1 <= self.gram_len()
        &&& self.word_view().len() + 2 <= usize::MAX
        &&& self.pos() <= self.word_view().len() + 2
    }

    /// Yields the gram at the current position and advances, or yields nothing
    /// once no further starting position is valid.
    pub fn next(&mut self) -> (r: Option<Vec<char>>)
        requires
            old(self).wf(),
        ensures
            final(self).wf(),
            final(self).word_view() == old(self).word_view(),
            final(self).gram_len() == old(self).gram_len(),
            (match r {
                Some(g) => {
                    &&& old(self).pos() < gram_count_spec(old(self).word_view(), old(self).gram_len())
                    &&& g@ == gram_at(old(self).word_view(), old(self).gram_len(), old(self).pos())
                    &&& final(self).pos() == old(self).pos() + 1
                },
                None => {
                    &&& old(self).pos() >= gram_count_spec(old(self).word_view(), old(self).gram_len())
                    &&& final(self).pos() == old(self).pos()
                },
            }),
    {
        let m = self.word.len_with_stops();
        if self.gram_length > m || self.position > m - self.gram_length {
            None
        } else {
            let ghost w = self.word@;
            let p = self.position;
            let l = self.gram_length;
            let mut g: Vec<char> = Vec::new();
            let mut i: usize = 0;
            while i < l
                invariant
                    i <= l,
                    p + l <= w.len() + 2,
                    w.len() + 2 <= usize::MAX,
                    self.word@ == w,
                    g@.len() == i,
                    forall|k: int| 0 <= k < i ==> g@[k] == padded(w)[p + k],
                decreases l - i,
            {
                g.push(self.word.char_at_with_stops(p + i));
                i += 1;
            }
            assert(g@ =~= gram_at(w, l as int, p as int));
            self.position = p + 1;
            Some(g)
        }
    }
}

/// Produces all grams of length `gram_length` of `word`, in order: the
/// sequence is empty, not an error, when the window is longer than the
/// padded word.
pub fn extract_grams(word: &Word, gram_length: usize) -> (r: Vec<Vec<char>>)
    requires
        1 <= gram_length,
        word@.len() + 2 <= usize::MAX,
    ensures
        r@.len() == gram_count_spec(word@, gram_length as int),
        forall|i: int|
            0 <= i < r@.len() ==> #[trigger] r@[i]@ == gram_at(word@, gram_length as int, i),
{
    let mut it = word.grams(gram_length);
    let mut out: Vec<Vec<char>> = Vec::new();
    loop
        invariant
            it.wf(),
            it.word_view() == word@,
            it.gram_len() == gram_length,
            it.pos() == out@.len(),
            out@.len() <= gram_count_spec(word@, gram_length as int),
            forall|i: int|
                0 <= i < out@.len() ==> #[trigger] out@[i]@ == gram_at(
                    word@,
                    gram_length as int,
                    i,
                ),
        ensures
            out@.len() == gram_count_spec(word@, gram_length as int),
            forall|i: int|
                0 <= i < out@.len() ==> #[trigger] out@[i]@ == gram_at(
                    word@,
                    gram_length as int,
                    i,
                ),
        decreases gram_count_spec(word@, gram_length as int) - it.pos(),
    {
        match it.next() {
            Some(g) => {
                out.push(g);
            },
            None => {
                break ;
            },
        }
    }
    out
}

} // verus!
