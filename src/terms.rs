//! The term index: for each term, the number of notes whose text holds it.
//! Similarity ranking reads these document frequencies.

use vstd::prelude::*;

use crate::text::{chars_of, counts_match, normal_text, same_chars, terms_of, text_terms};

verus! {

/// A counter one higher, staying at the largest value once there.
pub open spec fn inc(c: u64) -> u64 {
    if c < u64::MAX {
        (c + 1) as u64
    } else {
        c
    }
}

/// A counter one lower, never below zero.
pub open spec fn dec(c: u64) -> u64 {
    if c > 0 {
        (c - 1) as u64
    } else {
        0
    }
}

/// Global per-term document counts.
pub struct TermIndex {
    entries: Vec<(Vec<char>, u64)>,
}

impl TermIndex {
    /// The terms are distinct.
    pub closed spec fn wf(&self) -> bool {
        forall|i: int, j: int|
            0 <= i < j < self.entries@.len() ==> self.entries@[i].0@ != self.entries@[j].0@
    }

    /// The count of a term; zero for a term never counted.
    pub closed spec fn count(&self, t: Seq<char>) -> u64 {
        if exists|i: int| 0 <= i < self.entries@.len() && self.entries@[i].0@ == t {
            let i = choose|i: int| 0 <= i < self.entries@.len() && self.entries@[i].0@ == t;
            self.entries@[i].1
        } else {
            0
        }
    }

    proof fn lemma_count_at(&self, i: int)
        requires
            self.wf(),
            0 <= i < self.entries@.len(),
        ensures
            self.count(self.entries@[i].0@) == self.entries@[i].1,
    {
        let t = self.entries@[i].0@;
        let j = choose|j: int| 0 <= j < self.entries@.len() && self.entries@[j].0@ == t;
        if j != i {
            if j < i {
                assert(self.entries@[j].0@ != self.entries@[i].0@);
            } else {
                assert(self.entries@[i].0@ != self.entries@[j].0@);
            }
        }
    }

    /// An index that counts nothing.
    pub fn new() -> (r: TermIndex)
        ensures
            r.wf(),
            forall|t: Seq<char>| r.count(t) == 0,
    {
        TermIndex { entries: Vec::new() }
    }

    /// Forgets every count.
    pub fn clear(&mut self)
        ensures
            final(self).wf(),
            forall|t: Seq<char>| final(self).count(t) == 0,
    {
        self.entries = Vec::new();
    }

    /// Where a term stands, if it is there.
    fn find(&self, t: &[char]) -> (r: Option<usize>)
        requires
            self.wf(),
        ensures
            match r {
                Some(i) => i < self.entries@.len() && self.entries@[i as int].0@ == t@,
                None => forall|i: int| 0 <= i < self.entries@.len() ==> self.entries@[i].0@ != t@,
            },
    {
        let mut i: usize = 0;
        while i < self.entries.len()
            invariant
                i <= self.entries@.len(),
                forall|k: int| 0 <= k < i ==> self.entries@[k].0@ != t@,
            decreases self.entries@.len() - i,
        {
            if same_chars(self.entries[i].0.as_slice(), t) {
                return Some(i);
            }
            i = i + 1;
        }
        None
    }

    /// Whether no term has a positive count.
    pub fn is_empty(&self) -> (r: bool)
        requires
            self.wf(),
        ensures
            r == forall|t: Seq<char>| self.count(t) == 0,
    {
        let mut i: usize = 0;
        while i < self.entries.len()
            invariant
                self.wf(),
                i <= self.entries@.len(),
                forall|k: int| 0 <= k < i ==> self.entries@[k].1 == 0,
            decreases self.entries@.len() - i,
        {
            if self.entries[i].1 != 0 {
                proof {
                    self.lemma_count_at(i as int);
                }
                return false;
            }
            i = i + 1;
        }
        true
    }

    /// The count of a term.
    pub fn lookup(&self, t: &[char]) -> (r: u64)
        requires
            self.wf(),
        ensures
            r == self.count(t@),
    {
        match self.find(t) {
            Some(i) => {
                proof {
                    self.lemma_count_at(i as int);
                }
                self.entries[i].1
            },
            None => 0,
        }
    }

    /// Sets the count of a term, leaving the others.
    fn set_count(&mut self, t: &[char], c: u64)
        requires
            old(self).wf(),
        ensures
            final(self).wf(),
            final(self).count(t@) == c,
            forall|u: Seq<char>| u != t@ ==> final(self).count(u) == old(self).count(u),
    {
        let key = crate::text::copy_chars(t);
        match self.find(t) {
            Some(i) => {
                let ghost before = *self;
                self.entries.set(i, (key, c));
                assert forall|a: int, b: int| 0 <= a < b < self.entries@.len() implies self.entries@[a].0@
                    != self.entries@[b].0@ by {
                    assert(before.entries@[a].0@ != before.entries@[b].0@);
                }
                proof {
                    self.lemma_count_at(i as int);
                }
                assert forall|u: Seq<char>| u != t@ implies self.count(u) == before.count(u) by {
                    if exists|j: int| 0 <= j < self.entries@.len() && self.entries@[j].0@ == u {
                        let j = choose|j: int| 0 <= j < self.entries@.len() && self.entries@[j].0@ == u;
                        self.lemma_count_at(j);
                        before.lemma_count_at(j);
                    } else {
                        assert forall|j: int| 0 <= j < before.entries@.len() implies before.entries@[j].0@ != u by {
                            if j != i {
                                assert(self.entries@[j] == before.entries@[j]);
                            }
                        }
                    }
                }
            },
            None => {
                let ghost before = *self;
                self.entries.push((key, c));
                let n = self.entries.len() - 1;
                assert forall|a: int, b: int| 0 <= a < b < self.entries@.len() implies self.entries@[a].0@
                    != self.entries@[b].0@ by {
                    if b < n {
                        assert(before.entries@[a].0@ != before.entries@[b].0@);
                    }
                }
                proof {
                    self.lemma_count_at(n as int);
                }
                assert forall|u: Seq<char>| u != t@ implies self.count(u) == before.count(u) by {
                    if exists|j: int| 0 <= j < self.entries@.len() && self.entries@[j].0@ == u {
                        let j = choose|j: int| 0 <= j < self.entries@.len() && self.entries@[j].0@ == u;
                        assert(j < n);
                        assert(self.entries@[j] == before.entries@[j]);
                        self.lemma_count_at(j);
                        before.lemma_count_at(j);
                    } else {
                        assert forall|j: int| 0 <= j < before.entries@.len() implies before.entries@[j].0@ != u by {
                            assert(self.entries@[j] == before.entries@[j]);
                        }
                    }
                }
            },
        }
    }

    /// Counts one more note for each distinct term of a text.
    pub fn insert_word_occurences(&mut self, text: &str)
        requires
            old(self).wf(),
        ensures
            final(self).wf(),
            forall|t: Seq<char>|
                #[trigger] final(self).count(t) == if terms_of(normal_text(text@)).count(t) > 0 {
                    inc(old(self).count(t))
                } else {
                    old(self).count(t)
                },
    {
        self.apply_text(text, true);
    }

    /// Counts one note less for each distinct term of a text.
    pub fn remove_word_occurences(&mut self, text: &str)
        requires
            old(self).wf(),
        ensures
            final(self).wf(),
            forall|t: Seq<char>|
                #[trigger] final(self).count(t) == if terms_of(normal_text(text@)).count(t) > 0 {
                    dec(old(self).count(t))
                } else {
                    old(self).count(t)
                },
    {
        self.apply_text(text, false);
    }

    fn apply_text(&mut self, text: &str, up: bool)
        requires
            old(self).wf(),
        ensures
            final(self).wf(),
            forall|t: Seq<char>|
                #[trigger] final(self).count(t) == if terms_of(normal_text(text@)).count(t) > 0 {
                    if up {
                        inc(old(self).count(t))
                    } else {
                        dec(old(self).count(t))
                    }
                } else {
                    old(self).count(t)
                },
    {
        let chars = chars_of(text);
        let terms = text_terms(chars.as_slice());
        let ghost bag = terms_of(normal_text(text@));
        let ghost start = *self;
        let mut i: usize = 0;
        while i < terms.len()
            invariant
                i <= terms@.len(),
                counts_match(terms@, bag),
                self.wf(),
                forall|t: Seq<char>|
                    #[trigger] self.count(t) == if exists|k: int| 0 <= k < i && terms@[k].0@ == t {
                        if up {
                            inc(start.count(t))
                        } else {
                            dec(start.count(t))
                        }
                    } else {
                        start.count(t)
                    },
            decreases terms@.len() - i,
        {
            let c = self.lookup(terms[i].0.as_slice());
            let ghost prev = *self;
            let ghost key = terms@[i as int].0@;
            proof {
                assert(!exists|k: int| 0 <= k < i && terms@[k].0@ == key) by {
                    if exists|k: int| 0 <= k < i && terms@[k].0@ == key {
                        let k = choose|k: int| 0 <= k < i && terms@[k].0@ == key;
                        assert(terms@[k].0@ != terms@[i as int].0@);
                    }
                }
            }
            let next = if up {
                if c < u64::MAX {
                    c + 1
                } else {
                    c
                }
            } else {
                if c > 0 {
                    c - 1
                } else {
                    0
                }
            };
            self.set_count(terms[i].0.as_slice(), next);
            assert forall|t: Seq<char>| #[trigger] self.count(t) == if exists|k: int| 0 <= k < i + 1 && terms@[k].0@ == t {
                        if up {
                            inc(start.count(t))
                        } else {
                            dec(start.count(t))
                        }
                    } else {
                        start.count(t)
                    } by {
                if t != key {
                    if exists|k: int| 0 <= k < i + 1 && terms@[k].0@ == t {
                        let k = choose|k: int| 0 <= k < i + 1 && terms@[k].0@ == t;
                        assert(0 <= k < i && terms@[k].0@ == t);
                    }
                    assert(prev.count(t) == self.count(t));
                } else {
                    assert(terms@[i as int].0@ == t);
                }
            }
            i = i + 1;
        }
        assert forall|t: Seq<char>| #[trigger] bag.count(t) > 0 <==> exists|k: int| 0 <= k < terms@.len() && terms@[k].0@ == t by {
            if exists|k: int| 0 <= k < terms@.len() && terms@[k].0@ == t {
                let k = choose|k: int| 0 <= k < terms@.len() && terms@[k].0@ == t;
                assert(terms@[k].1 > 0);
            }
        }
    }
}

} // verus!
