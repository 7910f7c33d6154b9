//! The logic of the search worker: the query text handed to the full-text
//! index, the terms that a similarity search looks for, and the single
//! request slot where a newer request replaces one still waiting.

use vstd::prelude::*;

use crate::text::{alphabetic, lower_of};

verus! {

/// The most notes that a full-text search hands back.
pub const SEARCH_LIMIT: usize = 200;

/// The most notes that a similarity search hands back.
pub const SIMILAR_LIMIT: usize = 20;

/// The most terms that a similarity search looks for.
pub const SIMILAR_TERMS: usize = 5;

/// A request to the search worker.
#[derive(Debug, Clone, PartialEq, Eq)]
pub enum Query {
    /// Notes whose text matches the given text.
    Search(String),
    /// Notes like a draft text.
    Similar(String),
}

/// A text lowercased, with every non-alphabetic character a space.
pub open spec fn sanitized(t: Seq<char>) -> Seq<char> {
    let l = lower_of(t);
    Seq::new(l.len(), |i: int| if alphabetic(l[i]) { l[i] } else { ' ' })
}

/// The sanitized texts that are not empty, in order.
pub open spec fn groups_of(texts: Seq<Seq<char>>) -> Seq<Seq<char>>
    decreases texts.len(),
{
    if texts.len() == 0 {
        Seq::empty()
    } else {
        let g = groups_of(texts.drop_last());
        let s = sanitized(texts.last());
        if s.len() > 0 {
            g.push(s)
        } else {
            g
        }
    }
}

/// Groups each in parentheses, joined by ` OR `.
pub open spec fn joined(groups: Seq<Seq<char>>) -> Seq<char>
    decreases groups.len(),
{
    if groups.len() == 0 {
        Seq::empty()
    } else if groups.len() == 1 {
        seq!['('] + groups[0] + seq![')']
    } else {
        joined(groups.drop_last()) + seq![' ', 'O', 'R', ' ', '('] + groups.last() + seq![')']
    }
}

/// The query text for the full-text index: each text lowercased, with its
/// non-alphabetic characters turned to spaces; the empty ones left out; the
/// rest each in parentheses, joined by ` OR `.
pub fn search_query(texts: &Vec<String>) -> (r: String)
    ensures
        r@ == joined(groups_of(texts@.map_values(|t: String| t@))),
{
    let ghost ts = texts@.map_values(|t: String| t@);
    let mut out: Vec<char> = Vec::new();
    let mut count: usize = 0;
    let mut i: usize = 0;
    while i < texts.len()
        invariant
            i <= texts@.len(),
            ts == texts@.map_values(|t: String| t@),
            groups_of(ts.take(i as int)).len() == count,
            count <= i,
            out@ == joined(groups_of(ts.take(i as int))),
        decreases texts@.len() - i,
    {
        let chars = crate::text::chars_of(texts[i].as_str());
        let low = crate::text::lowercase(chars.as_slice());
        let mut s: Vec<char> = Vec::new();
        let mut k: usize = 0;
        while k < low.len()
            invariant
                k <= low@.len(),
                low@ == lower_of(texts@[i as int]@),
                s@ == sanitized(texts@[i as int]@).take(k as int),
            decreases low@.len() - k,
        {
            if crate::text::is_alpha(low[k]) {
                s.push(low[k]);
            } else {
                s.push(' ');
            }
            assert(s@ =~= sanitized(texts@[i as int]@).take(k + 1));
            k = k + 1;
        }
        assert(s@ =~= sanitized(texts@[i as int]@));
        proof {
            assert(ts.take(i + 1).drop_last() =~= ts.take(i as int));
            assert(ts.take(i + 1).last() == texts@[i as int]@);
        }
        if s.len() > 0 {
            let ghost g = groups_of(ts.take(i as int));
            if count > 0 {
                out.push(' ');
                out.push('O');
                out.push('R');
                out.push(' ');
            }
            out.push('(');
            let mut k: usize = 0;
            let ghost base = out@;
            while k < s.len()
                invariant
                    k <= s@.len(),
                    out@ == base + s@.take(k as int),
                decreases s@.len() - k,
            {
                out.push(s[k]);
                assert(s@.take(k + 1) =~= s@.take(k as int).push(s@[k as int]));
                k = k + 1;
            }
            out.push(')');
            assert(s@.take(k as int) =~= s@);
            proof {
                let g2 = g.push(s@);
                assert(g2.drop_last() =~= g);
                if count == 0 {
                    assert(g.len() == 0);
                    assert(out@ =~= seq!['('] + g2[0] + seq![')']);
                } else {
                    assert(out@ =~= joined(g) + seq![' ', 'O', 'R', ' ', '('] + g2.last() + seq![')']);
                }
            }
            count = count + 1;
        }
        i = i + 1;
    }
    assert(ts.take(i as int) =~= ts);
    crate::text::string_of(out.as_slice())
}

/// The terms that a similarity search looks for: the first five of the
/// ranked terms, or all of them when fewer.
pub fn similar_terms(best_words: &Vec<String>) -> (r: Vec<String>)
    ensures
        r@.len() == if best_words@.len() < SIMILAR_TERMS {
            best_words@.len()
        } else {
            SIMILAR_TERMS as nat
        },
        forall|k: int| 0 <= k < r@.len() ==> #[trigger] r@[k]@ == best_words@[k]@,
{
    let end = if best_words.len() < SIMILAR_TERMS {
        best_words.len()
    } else {
        SIMILAR_TERMS
    };
    let mut r: Vec<String> = Vec::new();
    let mut k: usize = 0;
    while k < end
        invariant
            k <= end <= best_words@.len(),
            r@.len() == k,
            forall|j: int| 0 <= j < k ==> #[trigger] r@[j]@ == best_words@[j]@,
        decreases end - k,
    {
        r.push(best_words[k].clone());
        k = k + 1;
    }
    r
}

impl Query {
    /// The most notes that this request hands back.
    pub fn limit(&self) -> (r: usize)
        ensures
            r == match self {
                Query::Search(_) => SEARCH_LIMIT,
                Query::Similar(_) => SIMILAR_LIMIT,
            },
    {
        match self {
            Query::Search(_) => SEARCH_LIMIT,
            Query::Similar(_) => SIMILAR_LIMIT,
        }
    }
}

/// The request slot between callers and the search worker: at most one
/// request waits, and a newer one replaces it.
pub struct SearchSlot<T> {
    pending: Option<T>,
}

impl<T> SearchSlot<T> {
    /// The request waiting, if any.
    pub closed spec fn waiting(&self) -> Option<T> {
        self.pending
    }

    /// A slot with nothing waiting.
    pub fn new() -> (r: Self)
        ensures
            r.waiting() is None,
    {
        SearchSlot { pending: None }
    }

    /// Puts a request in the slot; hands back the one it replaces, which
    /// will never be served.
    pub fn submit(&mut self, request: T) -> (r: Option<T>)
        ensures
            final(self).waiting() == Some(request),
            r == old(self).waiting(),
    {
        let previous = self.pending.take();
        self.pending = Some(request);
        previous
    }

    /// Takes the waiting request, leaving the slot empty.
    pub fn take(&mut self) -> (r: Option<T>)
        ensures
            final(self).waiting() is None,
            r == old(self).waiting(),
    {
        self.pending.take()
    }

    /// Whether a request waits.
    pub fn is_waiting(&self) -> (r: bool)
        ensures
            r == (self.waiting() is Some),
    {
        self.pending.is_some()
    }
}

} // verus!
