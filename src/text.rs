//! Tokenization of note text: the normal form of words that the term index
//! counts and that similarity ranking looks up.

use vstd::multiset::Multiset;
use vstd::prelude::*;

verus! {

/// Whether `char::is_alphabetic` holds of a character (Unicode Alphabetic property).
pub uninterp spec fn alphabetic(c: char) -> bool;

/// Whether a character has the Unicode White_Space property, as
/// `char::is_whitespace` documents it.
pub open spec fn whitespace(c: char) -> bool {
    let u = c as u32;
    (0x9 <= u <= 0xd) || u == 0x20 || u == 0x85 || u == 0xa0 || u == 0x1680 || (0x2000 <= u
        <= 0x200a) || u == 0x2028 || u == 0x2029 || u == 0x202f || u == 0x205f || u == 0x3000
}

/// What `str::to_lowercase` returns for a string with these characters.
pub uninterp spec fn lower_of(s: Seq<char>) -> Seq<char>;

/// Relies on `char::is_alphabetic`: the Unicode Alphabetic property of one character.
#[verifier::external_body]
pub(crate) fn is_alpha(c: char) -> (r: bool)
    ensures
        r == alphabetic(c),
{
    c.is_alphabetic()
}

/// Whether a character has the Unicode White_Space property.
fn is_space(c: char) -> (r: bool)
    ensures
        r == whitespace(c),
{
    let u = c as u32;
    (0x9 <= u && u <= 0xd) || u == 0x20 || u == 0x85 || u == 0xa0 || u == 0x1680 || (0x2000 <= u
        && u <= 0x200a) || u == 0x2028 || u == 0x2029 || u == 0x202f || u == 0x205f || u == 0x3000
}

/// Relies on `str::to_lowercase`: the lowercase mapping of the characters given.
#[verifier::external_body]
pub(crate) fn lowercase(s: &[char]) -> (r: Vec<char>)
    ensures
        r@ == lower_of(s@),
{
    s.iter().collect::<String>().to_lowercase().chars().collect()
}

/// Relies on `str::chars`: the characters of a string, in order.
#[verifier::external_body]
pub(crate) fn chars_of(s: &str) -> (r: Vec<char>)
    ensures
        r@ == s@,
{
    s.chars().collect()
}

/// Relies on `String`'s `FromIterator<&char>`: a string of these characters, in order.
#[verifier::external_body]
pub(crate) fn string_of(v: &[char]) -> (r: String)
    ensures
        r@ == v@,
{
    v.iter().collect()
}

/// Index of the first alphabetic character at or after `i`, or the length.
pub open spec fn first_alpha(s: Seq<char>, i: int) -> int
    decreases s.len() - i,
{
    if i >= s.len() {
        s.len() as int
    } else if alphabetic(s[i]) {
        i
    } else {
        first_alpha(s, i + 1)
    }
}

/// One past the last alphabetic character before `j`, or zero.
pub open spec fn end_alpha(s: Seq<char>, j: int) -> int
    decreases j,
{
    if j <= 0 {
        0
    } else if alphabetic(s[j - 1]) {
        j
    } else {
        end_alpha(s, j - 1)
    }
}

/// The span from the first to the last alphabetic character; empty when there is none.
pub open spec fn trimmed(s: Seq<char>) -> Seq<char> {
    let a = first_alpha(s, 0);
    if a >= s.len() {
        Seq::empty()
    } else {
        s.subrange(a, end_alpha(s, s.len() as int))
    }
}

/// The word without one trailing `s`.
pub open spec fn singular(s: Seq<char>) -> Seq<char> {
    if s.len() > 0 && s.last() == 's' {
        s.drop_last()
    } else {
        s
    }
}

/// The word without a trailing `ing`, when at least six characters long.
pub open spec fn without_ing(s: Seq<char>) -> Seq<char> {
    if s.len() >= 6 && s.subrange(s.len() - 3, s.len() as int) == seq!['i', 'n', 'g'] {
        s.subrange(0, s.len() - 3)
    } else {
        s
    }
}

/// The normal form of one word.
pub open spec fn normal_word(s: Seq<char>) -> Seq<char> {
    without_ing(singular(trimmed(s)))
}

proof fn lemma_first_alpha_bounds(s: Seq<char>, i: int)
    requires
        0 <= i <= s.len(),
    ensures
        i <= first_alpha(s, i) <= s.len(),
        first_alpha(s, i) < s.len() ==> alphabetic(s[first_alpha(s, i)]),
    decreases s.len() - i,
{
    if i < s.len() && !alphabetic(s[i]) {
        lemma_first_alpha_bounds(s, i + 1);
    }
}

proof fn lemma_end_alpha_past(s: Seq<char>, j: int, k: int)
    requires
        0 <= k < j <= s.len(),
        alphabetic(s[k]),
    ensures
        k < end_alpha(s, j) <= j,
    decreases j,
{
    if !alphabetic(s[j - 1]) {
        lemma_end_alpha_past(s, j - 1, k);
    }
}

/// The word without leading and trailing non-alphabetic characters; empty
/// when the word has no alphabetic character.
pub fn trim_punctuation(word: &[char]) -> (r: Vec<char>)
    ensures
        r@ == trimmed(word@),
{
    let n = word.len();
    let mut start: usize = 0;
    while start < n && !is_alpha(word[start])
        invariant
            start <= n == word@.len(),
            first_alpha(word@, 0) == first_alpha(word@, start as int),
        decreases n - start,
    {
        start = start + 1;
    }
    proof {
        lemma_first_alpha_bounds(word@, 0);
    }
    let mut r: Vec<char> = Vec::new();
    if start == n {
        return r;
    }
    let mut end: usize = n;
    while end > 0 && !is_alpha(word[end - 1])
        invariant
            end <= n == word@.len(),
            end_alpha(word@, n as int) == end_alpha(word@, end as int),
        decreases end,
    {
        end = end - 1;
    }
    proof {
        lemma_end_alpha_past(word@, n as int, start as int);
    }
    let mut i: usize = start;
    while i < end
        invariant
            start <= i <= end <= n == word@.len(),
            r@ == word@.subrange(start as int, i as int),
        decreases end - i,
    {
        r.push(word[i]);
        i = i + 1;
    }
    r
}


/// Copies `s[from..to]`.
fn copy_range(s: &[char], from: usize, to: usize) -> (r: Vec<char>)
    requires
        from <= to <= s@.len(),
    ensures
        r@ == s@.subrange(from as int, to as int),
{
    let mut r: Vec<char> = Vec::new();
    let mut i: usize = from;
    while i < to
        invariant
            from <= i <= to <= s@.len(),
            r@ == s@.subrange(from as int, i as int),
        decreases to - i,
    {
        r.push(s[i]);
        i = i + 1;
    }
    r
}

/// A copy of a character slice.
pub fn copy_chars(s: &[char]) -> (r: Vec<char>)
    ensures
        r@ == s@,
{
    let r = copy_range(s, 0, s.len());
    assert(r@ =~= s@);
    r
}

/// The word without one trailing `s`.
pub fn naive_singularize(word: &[char]) -> (r: Vec<char>)
    ensures
        r@ == singular(word@),
{
    let n = word.len();
    if n > 0 && word[n - 1] == 's' {
        copy_range(word, 0, n - 1)
    } else {
        copy_range(word, 0, n)
    }
}

/// The normal form of a word: trimmed of punctuation, without one trailing
/// `s`, and without a trailing `ing` when at least six characters long.
pub fn normalize_word(word: &[char]) -> (r: Vec<char>)
    ensures
        r@ == normal_word(word@),
{
    let t = trim_punctuation(word);
    let w = naive_singularize(t.as_slice());
    let n = w.len();
    if n >= 6 && w[n - 3] == 'i' && w[n - 2] == 'n' && w[n - 1] == 'g' {
        let r = copy_range(w.as_slice(), 0, n - 3);
        assert(w@.subrange(n - 3, n as int) =~= seq!['i', 'n', 'g']);
        r
    } else {
        proof {
            if n >= 6 {
                let tail = w@.subrange(n - 3, n as int);
                if tail == seq!['i', 'n', 'g'] {
                    assert(tail[0] == w@[n - 3]);
                    assert(tail[1] == w@[n - 2]);
                    assert(tail[2] == w@[n - 1]);
                }
            }
        }
        let r = copy_range(w.as_slice(), 0, n);
        assert(r@ =~= w@);
        r
    }
}

/// The words of a prefix of a text split at whitespace: the words completed so
/// far, and the word still open at the end.
pub open spec fn split_state(s: Seq<char>) -> (Seq<Seq<char>>, Seq<char>)
    decreases s.len(),
{
    if s.len() == 0 {
        (Seq::empty(), Seq::empty())
    } else {
        let (done, cur) = split_state(s.drop_last());
        if whitespace(s.last()) {
            if cur.len() > 0 {
                (done.push(cur), Seq::empty())
            } else {
                (done, Seq::empty())
            }
        } else {
            (done, cur.push(s.last()))
        }
    }
}

/// The maximal runs of non-whitespace characters of a text, in order.
pub open spec fn words_of(s: Seq<char>) -> Seq<Seq<char>> {
    let (done, cur) = split_state(s);
    if cur.len() > 0 {
        done.push(cur)
    } else {
        done
    }
}

/// Whether a normalized word is counted: three to thirty characters.
pub open spec fn countable(w: Seq<char>) -> bool {
    3 <= w.len() <= 30
}

/// The bag of countable normal forms of a sequence of words.
pub open spec fn token_bag(ws: Seq<Seq<char>>) -> Multiset<Seq<char>>
    decreases ws.len(),
{
    if ws.len() == 0 {
        Multiset::empty()
    } else {
        let b = token_bag(ws.drop_last());
        let t = normal_word(ws.last());
        if countable(t) {
            b.insert(t)
        } else {
            b
        }
    }
}

/// The bag of terms of a text: each word's normal form, when countable.
pub open spec fn terms_of(text: Seq<char>) -> Multiset<Seq<char>> {
    token_bag(words_of(text))
}

/// Splits a text into its maximal runs of non-whitespace characters.
pub fn split_whitespace(text: &[char]) -> (r: Vec<Vec<char>>)
    ensures
        r@.len() == words_of(text@).len(),
        forall|i: int| 0 <= i < r@.len() ==> #[trigger] r@[i]@ == words_of(text@)[i],
{
    let n = text.len();
    let mut done: Vec<Vec<char>> = Vec::new();
    let mut cur: Vec<char> = Vec::new();
    let mut i: usize = 0;
    while i < n
        invariant
            i <= n == text@.len(),
            split_state(text@.take(i as int)).0.len() == done@.len(),
            forall|k: int|
                0 <= k < done@.len() ==> #[trigger] done@[k]@ == split_state(
                    text@.take(i as int),
                ).0[k],
            split_state(text@.take(i as int)).1 == cur@,
        decreases n - i,
    {
        let c = text[i];
        proof {
            assert(text@.take(i + 1).drop_last() =~= text@.take(i as int));
            assert(text@.take(i + 1).last() == c);
        }
        if is_space(c) {
            if cur.len() > 0 {
                let w = cur;
                done.push(w);
                cur = Vec::new();
            }
        } else {
            cur.push(c);
        }
        i = i + 1;
    }
    assert(text@.take(n as int) =~= text@);
    if cur.len() > 0 {
        done.push(cur);
    }
    done
}

/// The entries of a word count list match a bag of terms: keys distinct,
/// each with its positive count in the bag, and every term of the bag present.
pub open spec fn counts_match(v: Seq<(Vec<char>, usize)>, bag: Multiset<Seq<char>>) -> bool {
    &&& forall|i: int, j: int| 0 <= i < j < v.len() ==> v[i].0@ != v[j].0@
    &&& forall|i: int| #![trigger v[i]] 0 <= i < v.len() ==> v[i].1 > 0 && bag.count(v[i].0@) == v[i].1
    &&& forall|w: Seq<char>| #![trigger bag.count(w)] bag.count(w) > 0 ==> exists|i: int| #![trigger v[i]] 0 <= i < v.len() && v[i].0@ == w
}

/// Whether two character slices hold the same characters.
pub fn same_chars(a: &[char], b: &[char]) -> (r: bool)
    ensures
        r == (a@ == b@),
{
    if a.len() != b.len() {
        return false;
    }
    let mut i: usize = 0;
    while i < a.len()
        invariant
            i <= a@.len() == b@.len(),
            a@.take(i as int) == b@.take(i as int),
        decreases a@.len() - i,
    {
        if a[i] != b[i] {
            return false;
        }
        assert(a@.take(i + 1) =~= a@.take(i as int).push(a@[i as int]));
        assert(b@.take(i + 1) =~= b@.take(i as int).push(b@[i as int]));
        i = i + 1;
    }
    assert(a@ =~= a@.take(i as int));
    assert(b@ =~= b@.take(i as int));
    true
}

/// Counts the terms of a text: each whitespace-separated word in normal form,
/// when three to thirty characters long, with the number of its occurrences.
/// Case is kept as it is.
pub fn count_word_occurrences(text: &[char]) -> (r: Vec<(Vec<char>, usize)>)
    ensures
        counts_match(r@, terms_of(text@)),
{
    broadcast use vstd::multiset::group_multiset_axioms;

    let words = split_whitespace(text);
    let ghost ws = words_of(text@);
    let mut counts: Vec<(Vec<char>, usize)> = Vec::new();
    let mut i: usize = 0;
    while i < words.len()
        invariant
            i <= words@.len() == ws.len(),
            forall|k: int| 0 <= k < words@.len() ==> #[trigger] words@[k]@ == ws[k],
            counts_match(counts@, token_bag(ws.take(i as int))),
            forall|k: int| 0 <= k < counts@.len() ==> counts@[k].1 <= i,
        decreases words@.len() - i,
    {
        let t = normalize_word(words[i].as_slice());
        let ghost old_counts = counts@;
        let ghost bag = token_bag(ws.take(i as int));
        proof {
            assert(ws.take(i + 1).drop_last() =~= ws.take(i as int));
            assert(ws.take(i + 1).last() == ws[i as int]);
        }
        if t.len() >= 3 && t.len() <= 30 {
            let mut j: usize = 0;
            while j < counts.len() && !same_chars(counts[j].0.as_slice(), t.as_slice())
                invariant
                    j <= counts@.len() == old_counts.len(),
                    counts@ == old_counts,
                    forall|k: int| 0 <= k < j ==> counts@[k].0@ != t@,
                decreases counts@.len() - j,
            {
                j = j + 1;
            }
            let ghost nb = bag.insert(t@);
            assert(token_bag(ws.take(i + 1)) == nb);
            if j < counts.len() {
                let c = counts[j].1;
                let key = copy_range(counts[j].0.as_slice(), 0, counts[j].0.len());
                assert(key@ =~= counts[j as int].0@);
                counts.set(j, (key, c + 1));
                assert forall|a: int, b: int| 0 <= a < b < counts@.len() implies counts@[a].0@
                    != counts@[b].0@ by {
                    assert(old_counts[a].0@ != old_counts[b].0@);
                }
                assert forall|k: int| #![trigger counts@[k]] 0 <= k < counts@.len() implies counts@[k].1 > 0
                    && nb.count(counts@[k].0@) == counts@[k].1 by {
                    if k != j {
                        assert(counts@[k] == old_counts[k]);
                        assert(bag.count(old_counts[k].0@) == old_counts[k].1);
                        assert(old_counts[k].0@ != old_counts[j as int].0@);
                    } else {
                        assert(bag.count(old_counts[k].0@) == old_counts[k].1);
                    }
                }
                assert forall|w: Seq<char>| #![trigger nb.count(w)] nb.count(w) > 0 implies exists|k: int|
                    #![trigger counts@[k]] 0 <= k < counts@.len() && counts@[k].0@ == w by {
                    if w != t@ {
                        let k = choose|k: int|
                            #![trigger old_counts[k]] 0 <= k < old_counts.len() && old_counts[k].0@ == w;
                        assert(counts@[k].0@ == w);
                    } else {
                        assert(counts@[j as int].0@ == w);
                    }
                }
                assert(counts_match(counts@, nb));
            } else {
                proof {
                    if bag.count(t@) > 0 {
                        let k = choose|k: int|
                            #![trigger old_counts[k]] 0 <= k < old_counts.len() && old_counts[k].0@ == t@;
                        assert(false);
                    }
                }
                counts.push((t, 1));
                assert forall|a: int, b: int| 0 <= a < b < counts@.len() implies counts@[a].0@
                    != counts@[b].0@ by {
                    if b < old_counts.len() {
                        assert(old_counts[a].0@ != old_counts[b].0@);
                    }
                }
                assert forall|k: int| #![trigger counts@[k]] 0 <= k < counts@.len() implies counts@[k].1 > 0
                    && nb.count(counts@[k].0@) == counts@[k].1 by {
                    if k < old_counts.len() {
                        assert(counts@[k] == old_counts[k]);
                        assert(bag.count(old_counts[k].0@) == old_counts[k].1);
                        assert(old_counts[k].0@ != t@);
                    }
                }
                assert forall|w: Seq<char>| #![trigger nb.count(w)] nb.count(w) > 0 implies exists|k: int|
                    #![trigger counts@[k]] 0 <= k < counts@.len() && counts@[k].0@ == w by {
                    if w != t@ {
                        let k = choose|k: int|
                            #![trigger old_counts[k]] 0 <= k < old_counts.len() && old_counts[k].0@ == w;
                        assert(counts@[k].0@ == w);
                    } else {
                        assert(counts@[old_counts.len() as int].0@ == w);
                    }
                }
                assert(counts_match(counts@, nb));
            }
        } else {
            assert(token_bag(ws.take(i + 1)) == bag);
        }
        i = i + 1;
    }
    assert(ws.take(i as int) =~= ws);
    counts
}


/// A line without one trailing carriage return.
pub open spec fn strip_cr(l: Seq<char>) -> Seq<char> {
    if l.len() > 0 && l.last() == '\r' {
        l.drop_last()
    } else {
        l
    }
}

/// The lines of a prefix of a text: the lines ended by a newline so far
/// (each without a trailing carriage return), and the line still open.
pub open spec fn line_state(s: Seq<char>) -> (Seq<Seq<char>>, Seq<char>)
    decreases s.len(),
{
    if s.len() == 0 {
        (Seq::empty(), Seq::empty())
    } else {
        let (done, cur) = line_state(s.drop_last());
        if s.last() == '\n' {
            (done.push(strip_cr(cur)), Seq::empty())
        } else {
            (done, cur.push(s.last()))
        }
    }
}

/// The lines of a text, as `str::lines` gives them: split at newlines, a
/// carriage return before a newline dropped, no empty line after the last newline.
pub open spec fn lines_of(s: Seq<char>) -> Seq<Seq<char>> {
    let (done, cur) = line_state(s);
    if cur.len() > 0 {
        done.push(cur)
    } else {
        done
    }
}

/// Index of the first non-whitespace character at or after `i`, or the length.
pub open spec fn first_non_space(s: Seq<char>, i: int) -> int
    decreases s.len() - i,
{
    if i >= s.len() {
        s.len() as int
    } else if !whitespace(s[i]) {
        i
    } else {
        first_non_space(s, i + 1)
    }
}

/// Whether a line opens or closes a fenced code block: after leading
/// whitespace it starts with three backticks.
pub open spec fn is_fence(l: Seq<char>) -> bool {
    let a = first_non_space(l, 0);
    a + 3 <= l.len() && l[a] == '`' && l[a + 1] == '`' && l[a + 2] == '`'
}

/// The text kept from a sequence of lines, each followed by a newline, and
/// whether the last line leaves a code block open. A fence line toggles the
/// block; lines inside a block are dropped, and so is the opening fence.
pub open spec fn kept_state(ls: Seq<Seq<char>>) -> (Seq<char>, bool)
    decreases ls.len(),
{
    if ls.len() == 0 {
        (Seq::empty(), false)
    } else {
        let (r, inside) = kept_state(ls.drop_last());
        let l = ls.last();
        let now_inside = if is_fence(l) {
            !inside
        } else {
            inside
        };
        (if now_inside {
            r
        } else {
            r + l.push('\n')
        }, now_inside)
    }
}

/// A text without its fenced code blocks, one newline after each kept line.
pub open spec fn without_code(s: Seq<char>) -> Seq<char> {
    kept_state(lines_of(s)).0
}

proof fn lemma_first_non_space_bounds(s: Seq<char>, i: int)
    requires
        0 <= i <= s.len(),
    ensures
        i <= first_non_space(s, i) <= s.len(),
    decreases s.len() - i,
{
    if i < s.len() && whitespace(s[i]) {
        lemma_first_non_space_bounds(s, i + 1);
    }
}

/// Whether a line is a code fence.
fn fence_line(l: &[char]) -> (r: bool)
    ensures
        r == is_fence(l@),
{
    let n = l.len();
    let mut a: usize = 0;
    while a < n && is_space(l[a])
        invariant
            a <= n == l@.len(),
            first_non_space(l@, 0) == first_non_space(l@, a as int),
        decreases n - a,
    {
        a = a + 1;
    }
    proof {
        lemma_first_non_space_bounds(l@, 0);
    }
    n >= 3 && a <= n - 3 && l[a] == '`' && l[a + 1] == '`' && l[a + 2] == '`'
}

/// Takes one more line into the kept text; returns whether a code block is open after it.
fn keep_line(out: &mut Vec<char>, inside: bool, l: &[char]) -> (now_inside: bool)
    ensures
        now_inside == (if is_fence(l@) {
            !inside
        } else {
            inside
        }),
        final(out)@ == (if now_inside {
            old(out)@
        } else {
            old(out)@ + l@.push('\n')
        }),
{
    let now_inside = if fence_line(l) {
        !inside
    } else {
        inside
    };
    if !now_inside {
        let mut i: usize = 0;
        let ghost start = out@;
        while i < l.len()
            invariant
                i <= l@.len(),
                out@ == start + l@.take(i as int),
            decreases l@.len() - i,
        {
            out.push(l[i]);
            assert(l@.take(i + 1) =~= l@.take(i as int).push(l@[i as int]));
            i = i + 1;
        }
        out.push('\n');
        assert(l@.take(i as int) =~= l@);
        assert(out@ =~= start + l@.push('\n'));
    }
    now_inside
}

/// The text without fenced code blocks: the lines between an opening line
/// of three backticks and the next such line are dropped, as is the opening
/// line. Each kept line is followed by a newline.
pub fn ignore_code_blocks(text: &[char]) -> (r: Vec<char>)
    ensures
        r@ == without_code(text@),
{
    let n = text.len();
    let mut out: Vec<char> = Vec::new();
    let mut inside = false;
    let mut cur: Vec<char> = Vec::new();
    let mut i: usize = 0;
    while i < n
        invariant
            i <= n == text@.len(),
            kept_state(line_state(text@.take(i as int)).0) == (out@, inside),
            line_state(text@.take(i as int)).1 == cur@,
        decreases n - i,
    {
        let c = text[i];
        let ghost ls = line_state(text@.take(i as int)).0;
        proof {
            assert(text@.take(i + 1).drop_last() =~= text@.take(i as int));
            assert(text@.take(i + 1).last() == c);
        }
        if c == '\n' {
            let k = cur.len();
            let line = if k > 0 && cur[k - 1] == '\r' {
                copy_range(cur.as_slice(), 0, k - 1)
            } else {
                copy_range(cur.as_slice(), 0, k)
            };
            assert(line@ =~= strip_cr(cur@));
            inside = keep_line(&mut out, inside, line.as_slice());
            assert(ls.push(line@).drop_last() =~= ls);
            cur = Vec::new();
        } else {
            cur.push(c);
        }
        i = i + 1;
    }
    assert(text@.take(n as int) =~= text@);
    if cur.len() > 0 {
        let ghost ls = line_state(text@).0;
        assert(ls.push(cur@).drop_last() =~= ls);
        inside = keep_line(&mut out, inside, cur.as_slice());
    }
    out
}

/// Every non-alphabetic character replaced by a space.
pub open spec fn blank_non_alpha(s: Seq<char>) -> Seq<char> {
    Seq::new(s.len(), |i: int| if alphabetic(s[i]) { s[i] } else { ' ' })
}

/// The form of a text that terms are read from: without code blocks, every
/// non-alphabetic character a space, in lowercase.
pub open spec fn normal_text(s: Seq<char>) -> Seq<char> {
    lower_of(blank_non_alpha(without_code(s)))
}

/// Normalizes a text for counting its terms: drops fenced code blocks,
/// replaces every non-alphabetic character by a space and lowercases it.
pub fn normalize_text(text: &[char]) -> (r: Vec<char>)
    ensures
        r@ == normal_text(text@),
{
    let t = ignore_code_blocks(text);
    let mut blank: Vec<char> = Vec::new();
    let mut i: usize = 0;
    while i < t.len()
        invariant
            i <= t@.len(),
            blank@ =~= blank_non_alpha(t@).take(i as int),
        decreases t@.len() - i,
    {
        let c = t[i];
        if is_alpha(c) {
            blank.push(c);
        } else {
            blank.push(' ');
        }
        i = i + 1;
    }
    assert(blank@ =~= blank_non_alpha(t@));
    lowercase(blank.as_slice())
}

/// The terms of a text: its normal form's words, each in normal form.
pub fn text_terms(text: &[char]) -> (r: Vec<(Vec<char>, usize)>)
    ensures
        counts_match(r@, terms_of(normal_text(text@))),
{
    let t = normalize_text(text);
    count_word_occurrences(t.as_slice())
}

} // verus!
