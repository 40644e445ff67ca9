//! The four rolling break candidates a line filler keeps, one per role.
use vstd::prelude::*;

use crate::words::{sentence_position, word_sentence_position, SentencePosition};

verus! {

/// A candidate break: `index` pending words precede it (0: no candidate),
/// and `n_char_after` characters, trailing spaces included, follow it.
#[derive(Copy, Clone, Debug, Default)]
pub struct SplitPoint {
    pub index: usize,
    pub n_char_after: usize,
}

impl SplitPoint {
    /// No candidate.
    pub open spec fn unset() -> SplitPoint {
        SplitPoint { index: 0, n_char_after: 0 }
    }

    /// This candidate once `n` more characters follow it.
    pub open spec fn pushed_back(self, n: nat) -> SplitPoint {
        SplitPoint { index: self.index, n_char_after: (self.n_char_after + n) as usize }
    }

    /// This candidate once the text up to the break `chosen` has been taken
    /// away: it is gone if it lay at or before `chosen`, and otherwise counts
    /// its words from there.
    pub open spec fn after_taking(self, chosen: SplitPoint) -> SplitPoint {
        SplitPoint {
            index: if self.n_char_after >= chosen.n_char_after {
                0
            } else if self.index >= chosen.index {
                (self.index - chosen.index) as usize
            } else {
                0
            },
            n_char_after: self.n_char_after,
        }
    }

    /// Forgets this candidate if `n_char_after` or more characters follow it.
    fn forget_if_behind(&mut self, n_char_after: usize)
        ensures
            *final(self) == (SplitPoint {
                index: if old(self).n_char_after >= n_char_after {
                    0
                } else {
                    old(self).index
                },
                ..*old(self)
            }),
    {
        if self.n_char_after >= n_char_after {
            self.index = 0;
        }
    }

    /// Sets this candidate to `index` and `n_char_after`.
    fn set(&mut self, index: usize, n_char_after: usize)
        ensures
            *final(self) == (SplitPoint { index, n_char_after }),
    {
        self.index = index;
        self.n_char_after = n_char_after;
    }
}

/// The best known break candidate of each role.
#[derive(Copy, Clone, Debug, Default)]
pub struct SplitPoints {
    pub sub_start: SplitPoint,
    pub end: SplitPoint,
    pub sub_end: SplitPoint,
    pub connection_word: SplitPoint,
}

impl SplitPoints {
    /// No candidate of any role.
    pub open spec fn empty() -> SplitPoints {
        SplitPoints {
            sub_start: SplitPoint::unset(),
            end: SplitPoint::unset(),
            sub_end: SplitPoint::unset(),
            connection_word: SplitPoint::unset(),
        }
    }

    /// Every candidate's `n_char_after` plus `n` fits in a `usize`.
    pub open spec fn can_push_back(self, n: nat) -> bool {
        &&& self.sub_start.n_char_after + n <= usize::MAX
        &&& self.end.n_char_after + n <= usize::MAX
        &&& self.sub_end.n_char_after + n <= usize::MAX
        &&& self.connection_word.n_char_after + n <= usize::MAX
    }

    /// The candidates after the word `split`, `split_len` characters long with
    /// its trailing space, has become the `n_split`-th pending word.
    pub open spec fn registered(self, split: Seq<char>, split_len: nat, n_split: nat) -> SplitPoints {
        let pushed = SplitPoints {
            sub_start: self.sub_start.pushed_back(split_len),
            end: self.end.pushed_back(split_len),
            sub_end: self.sub_end.pushed_back(split_len),
            connection_word: self.connection_word.pushed_back(split_len),
        };
        let after = SplitPoint { index: n_split as usize, n_char_after: 0 };
        match sentence_position(split) {
            SentencePosition::End => SplitPoints { end: after, ..pushed },
            SentencePosition::SubEnd => SplitPoints { sub_end: after, ..pushed },
            SentencePosition::SubStart => SplitPoints {
                sub_start: SplitPoint {
                    index: if n_split > 0 {
                        (n_split - 1) as usize
                    } else {
                        0
                    },
                    n_char_after: split_len as usize,
                },
                ..pushed
            },
            SentencePosition::ConnectionWord => SplitPoints { connection_word: after, ..pushed },
            SentencePosition::Other => pushed,
        }
    }

    /// The set candidate of highest priority: sentence end, then sub-sentence
    /// end, then sub-sentence start, then connection word.
    pub open spec fn best(self) -> Option<SplitPoint> {
        if self.end.index > 0 {
            Some(self.end)
        } else if self.sub_end.index > 0 {
            Some(self.sub_end)
        } else if self.sub_start.index > 0 {
            Some(self.sub_start)
        } else if self.connection_word.index > 0 {
            Some(self.connection_word)
        } else {
            None
        }
    }

    /// The candidates once the text up to `chosen` has been taken away.
    pub open spec fn after_taking(self, chosen: SplitPoint) -> SplitPoints {
        SplitPoints {
            sub_start: self.sub_start.after_taking(chosen),
            end: self.end.after_taking(chosen),
            sub_end: self.sub_end.after_taking(chosen),
            connection_word: self.connection_word.after_taking(chosen),
        }
    }

    /// The candidates in order of priority, each borrowed mutably.
    pub fn parts_ordered_mut(&mut self) -> (r: [&mut SplitPoint; 4])
        ensures
            *r[0] == old(self).end,
            *r[1] == old(self).sub_end,
            *r[2] == old(self).sub_start,
            *r[3] == old(self).connection_word,
            final(self).end == *final(r[0]),
            final(self).sub_end == *final(r[1]),
            final(self).sub_start == *final(r[2]),
            final(self).connection_word == *final(r[3]),
    {
        [&mut self.end, &mut self.sub_end, &mut self.sub_start, &mut self.connection_word]
    }

    /// Register chosen a split point with `n_char_after` characters after it.
    fn register_n_char_after(&mut self, n_char_after: usize)
        ensures
            *final(self) == (SplitPoints {
                sub_start: SplitPoint {
                    index: if old(self).sub_start.n_char_after >= n_char_after {
                        0
                    } else {
                        old(self).sub_start.index
                    },
                    ..old(self).sub_start
                },
                end: SplitPoint {
                    index: if old(self).end.n_char_after >= n_char_after {
                        0
                    } else {
                        old(self).end.index
                    },
                    ..old(self).end
                },
                sub_end: SplitPoint {
                    index: if old(self).sub_end.n_char_after >= n_char_after {
                        0
                    } else {
                        old(self).sub_end.index
                    },
                    ..old(self).sub_end
                },
                connection_word: SplitPoint {
                    index: if old(self).connection_word.n_char_after >= n_char_after {
                        0
                    } else {
                        old(self).connection_word.index
                    },
                    ..old(self).connection_word
                },
            }),
    {
        // A candidate at or before the chosen one is now gone.
        self.end.forget_if_behind(n_char_after);
        self.sub_end.forget_if_behind(n_char_after);
        self.sub_start.forget_if_behind(n_char_after);
        self.connection_word.forget_if_behind(n_char_after);
    }

    /// Signal that `reduction` number of splits have been consumed.
    fn reduce_index(&mut self, reduction: usize)
        ensures
            final(self).end == (SplitPoint {
                index: old(self).end.index.saturating_sub(reduction),
                ..old(self).end
            }),
            final(self).sub_end == (SplitPoint {
                index: old(self).sub_end.index.saturating_sub(reduction),
                ..old(self).sub_end
            }),
            final(self).sub_start == (SplitPoint {
                index: old(self).sub_start.index.saturating_sub(reduction),
                ..old(self).sub_start
            }),
            final(self).connection_word == (SplitPoint {
                index: old(self).connection_word.index.saturating_sub(reduction),
                ..old(self).connection_word
            }),
    {
        self.end.index = self.end.index.saturating_sub(reduction);
        self.sub_end.index = self.sub_end.index.saturating_sub(reduction);
        self.sub_start.index = self.sub_start.index.saturating_sub(reduction);
        self.connection_word.index = self.connection_word.index.saturating_sub(reduction);
    }

    /// Records the word `split`, `split_len` characters long with its trailing
    /// space, as the `n_split`-th pending word.
    pub fn register_split(&mut self, split: &str, split_len: usize, n_split: usize)
        requires
            old(self).can_push_back(split_len as nat),
        ensures
            *final(self) == old(self).registered(split@, split_len as nat, n_split as nat),
    {
        self.end.n_char_after += split_len;
        self.sub_end.n_char_after += split_len;
        self.sub_start.n_char_after += split_len;
        self.connection_word.n_char_after += split_len;
        match word_sentence_position(split) {
            SentencePosition::End => self.end.set(n_split, 0),
            SentencePosition::SubEnd => self.sub_end.set(n_split, 0),
            SentencePosition::SubStart => self.sub_start.set(n_split.saturating_sub(1), split_len),
            SentencePosition::ConnectionWord => self.connection_word.set(n_split, 0),
            SentencePosition::Other => {},
        }
    }

    /// Forgets every candidate.
    pub fn reset(&mut self)
        ensures
            *final(self) == SplitPoints::empty(),
    {
        *self = SplitPoints::new();
    }

    /// No candidate of any role.
    pub fn new() -> (r: SplitPoints)
        ensures
            r == SplitPoints::empty(),
    {
        let unset = SplitPoint { index: 0, n_char_after: 0 };
        SplitPoints { sub_start: unset, end: unset, sub_end: unset, connection_word: unset }
    }

    /// Takes the set candidate of highest priority, if any, and makes the
    /// others relative to the text after it.
    pub fn next(&mut self) -> (r: Option<SplitPoint>)
        ensures
            r == old(self).best(),
            r matches Some(p) ==> *final(self) == old(self).after_taking(p),
            r is None ==> *final(self) == *old(self),
    {
        let best = if self.end.index > 0 {
            Some(self.end)
        } else if self.sub_end.index > 0 {
            Some(self.sub_end)
        } else if self.sub_start.index > 0 {
            Some(self.sub_start)
        } else if self.connection_word.index > 0 {
            Some(self.connection_word)
        } else {
            None
        };
        if let Some(p) = best {
            self.reduce_index(p.index);
            self.register_n_char_after(p.n_char_after);
        }
        best
    }
}

} // verus!
