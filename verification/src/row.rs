//! One line of document text plus its derived per-character overlays:
//! a syntax overlay (one kind tag per character) and a search-match
//! overlay (marking characters inside found occurrences).
//!
//! The overlays are recomputed by `highlight` and may be stale between
//! an edit and the next `highlight` call; callers re-highlight before
//! relying on them.

use vstd::prelude::*;
use crate::chars::chars_of;
use crate::document::SearchDirection;
use crate::filetype::{FileType, rules_of};
use crate::highlighting::{
    Token, TokenView, Type, expand_tokens, lemma_expand_tokens_len, lemma_expand_tokens_push,
    lemma_spec_tokens_expand_len, spec_tokens, token_views,
};

verus! {

/// `q` occurs in `t` starting at position `i`.
pub open spec fn is_match_at(t: Seq<char>, q: Seq<char>, i: int) -> bool {
    0 <= i && i + q.len() <= t.len() && t.subrange(i, i + q.len() as int) == q
}

/// The first position `>= i` where `q` occurs in `t`, if any.
pub open spec fn first_match_from(t: Seq<char>, q: Seq<char>, i: int) -> Option<int>
    decreases t.len() - i + 1,
{
    if i < 0 || i + q.len() > t.len() {
        None
    } else if is_match_at(t, q, i) {
        Some(i)
    } else {
        first_match_from(t, q, i + 1)
    }
}

/// The last position `<= i` where `q` occurs in `t`, if any.
pub open spec fn last_match_until(t: Seq<char>, q: Seq<char>, i: int) -> Option<int>
    decreases i + 1,
{
    if i < 0 {
        None
    } else if is_match_at(t, q, i) {
        Some(i)
    } else {
        last_match_until(t, q, i - 1)
    }
}

/// What a forward in-line search returns: the column immediately after
/// the first occurrence at or after `start`; `None` when `start` is at
/// or past the end of the line, or when there is no occurrence.
pub open spec fn row_find_forward(t: Seq<char>, q: Seq<char>, start: int) -> Option<int> {
    if start >= t.len() {
        None
    } else {
        match first_match_from(t, q, start) {
            Some(m) => Some(m + q.len()),
            None => None,
        }
    }
}

/// A backward search looks only at the prefix that ends one query-length
/// before `start` (clamped to the line).
pub open spec fn backward_bound(t: Seq<char>, q: Seq<char>, start: int) -> int {
    let s0: int = if q.len() > start {
        0
    } else {
        start - q.len()
    };
    if s0 > t.len() {
        t.len() as int
    } else {
        s0
    }
}

/// What a backward in-line search returns: the column immediately after
/// the last occurrence lying entirely inside the searched prefix, or
/// `None` when there is none.
pub open spec fn row_find_backward(t: Seq<char>, q: Seq<char>, start: int) -> Option<int> {
    match last_match_until(t, q, backward_bound(t, q, start) - q.len()) {
        Some(m) => Some(m + q.len()),
        None => None,
    }
}

/// What `first_match_from` promises: a found position is the first one.
pub proof fn lemma_first_match_from(t: Seq<char>, q: Seq<char>, i: int)
    requires
        0 <= i,
    ensures
        match first_match_from(t, q, i) {
            Some(m) => i <= m && is_match_at(t, q, m) && forall|j: int|
                i <= j < m ==> !is_match_at(t, q, j),
            None => forall|j: int| j >= i ==> !is_match_at(t, q, j),
        },
    decreases t.len() - i + 1,
{
    if i + q.len() > t.len() {
        assert forall|j: int| j >= i implies !is_match_at(t, q, j) by {
            assert(j + q.len() >= i + q.len());
        }
    } else if is_match_at(t, q, i) {
    } else {
        lemma_first_match_from(t, q, i + 1);
    }
}

/// Whether `q` occurs at position `i` of `t`, decided by comparing
/// characters.
fn match_at(text: &Vec<char>, q: &Vec<char>, i: usize) -> (r: bool)
    requires
        i + q@.len() <= text@.len(),
    ensures
        r == is_match_at(text@, q@, i as int),
{
    let tl = text.len();
    let mut j: usize = 0;
    while j < q.len()
        invariant
            tl == text@.len(),
            i + q@.len() <= text@.len(),
            0 <= j <= q@.len(),
            forall|k: int| 0 <= k < j ==> text@[i + k] == q@[k],
        decreases q@.len() - j,
    {
        proof {
            assert(i + j < tl);
        }
        if text[i + j] != q[j] {
            proof {
                if is_match_at(text@, q@, i as int) {
                    assert(text@.subrange(i as int, i + q@.len())[j as int] == q@[j as int]);
                    assert(false);
                }
            }
            return false;
        }
        j += 1;
    }
    assert(text@.subrange(i as int, i + q@.len()) =~= q@);
    true
}

/// Forward scan for the first occurrence at or after `start`.
fn find_forward(text: &Vec<char>, q: &Vec<char>, start: usize) -> (r: Option<usize>)
    ensures
        match r {
            Some(x) => row_find_forward(text@, q@, start as int) == Some(x as int),
            None => row_find_forward(text@, q@, start as int) is None,
        },
{
    let ghost t = text@;
    if start >= text.len() {
        return None;
    }
    let mut i = start;
    while text.len() - i >= q.len()
        invariant
            t == text@,
            start < t.len(),
            start <= i <= t.len(),
            first_match_from(t, q@, start as int) == first_match_from(t, q@, i as int),
        decreases t.len() - i,
    {
        if match_at(text, q, i) {
            return Some(i + q.len());
        }
        proof {
            if q@.len() == 0 {
                assert(t.subrange(i as int, i as int) =~= q@);
                assert(false);
            }
        }
        i += 1;
    }
    assert(first_match_from(t, q@, i as int) is None);
    None
}

/// Backward scan for the last occurrence inside the searched prefix.
fn find_backward(text: &Vec<char>, q: &Vec<char>, start: usize) -> (r: Option<usize>)
    ensures
        match r {
            Some(x) => row_find_backward(text@, q@, start as int) == Some(x as int),
            None => row_find_backward(text@, q@, start as int) is None,
        },
{
    let ghost t = text@;
    let s0 = if q.len() > start {
        0
    } else {
        start - q.len()
    };
    let bound = if s0 > text.len() {
        text.len()
    } else {
        s0
    };
    proof {
        assert(bound as int == backward_bound(t, q@, start as int));
    }
    if q.len() > bound {
        proof {
            assert(last_match_until(t, q@, bound - q@.len()) is None);
        }
        return None;
    }
    let top = bound - q.len();
    let mut i = top;
    loop
        invariant
            t == text@,
            q@.len() <= bound <= t.len(),
            bound as int == backward_bound(t, q@, start as int),
            top == bound - q@.len(),
            0 <= i <= top,
            last_match_until(t, q@, top as int) == last_match_until(t, q@, i as int),
        decreases i,
    {
        if match_at(text, q, i) {
            return Some(i + q.len());
        }
        if i == 0 {
            assert(last_match_until(t, q@, -1) is None);
            return None;
        }
        i -= 1;
    }
}

/// A character position `k` is inside the match overlay computed by
/// searching forward from `from`: repeatedly take the first occurrence
/// of `w` at or after the previous occurrence's end, and mark the
/// occurrence's character range.
pub open spec fn marked_from(t: Seq<char>, w: Seq<char>, from: int, k: int) -> bool
    decreases t.len() - from,
{
    if w.len() == 0 || from < 0 || from > t.len() {
        false
    } else {
        match row_find_forward(t, w, from) {
            Some(end) => if from < end <= t.len() {
                (end - w.len() <= k < end) || marked_from(t, w, end, k)
            } else {
                false
            },
            None => false,
        }
    }
}

/// Marked positions lie at or after the search start, inside the line.
pub proof fn lemma_marked_from_range(t: Seq<char>, w: Seq<char>, from: int, k: int)
    requires
        marked_from(t, w, from, k),
    ensures
        from <= k < t.len(),
    decreases t.len() - from,
{
    lemma_first_match_from(t, w, from);
    match row_find_forward(t, w, from) {
        Some(end) => {
            let m = end - w.len();
            assert(first_match_from(t, w, from) == Some(m));
            if m <= k < end {
            } else {
                lemma_marked_from_range(t, w, end, k);
            }
        },
        None => {
            assert(false);
        },
    }
}

/// The shading overlay `sh` agrees with the marking process as far as
/// position `upto`: `Match` exactly at marked positions below `upto`,
/// `Plain` everywhere else.
spec fn shaded_upto(t: Seq<char>, w: Seq<char>, upto: int, sh: Seq<Type>) -> bool {
    &&& sh.len() == t.len()
    &&& forall|k: int|
        #![trigger sh[k]]
        0 <= k < t.len() ==> sh[k] == (if marked_from(t, w, 0, k) && k < upto {
            Type::Match
        } else {
            Type::Plain
        })
}

/// Positions at or after `from` are marked by the whole process exactly
/// when marking restarted at `from` marks them.
spec fn marking_tail(t: Seq<char>, w: Seq<char>, from: int) -> bool {
    forall|k: int|
        #![trigger marked_from(t, w, from, k)]
        from <= k ==> (marked_from(t, w, 0, k) <==> marked_from(t, w, from, k))
}

/// The search-match overlay of a line under an optional search term:
/// `Match` exactly at the marked positions, `Plain` elsewhere.
pub open spec fn match_overlay(t: Seq<char>, term: Option<Seq<char>>) -> Seq<Type> {
    Seq::new(
        t.len(),
        |k: int|
            match term {
                Some(w) => if marked_from(t, w, 0, k) {
                    Type::Match
                } else {
                    Type::Plain
                },
                None => Type::Plain,
            },
    )
}

/// The view of a line whose text is `tx`, freshly highlighted under the
/// rules of `ft` with search term `term`: exactly what `highlight`
/// computes.
pub open spec fn highlighted_row(tx: Seq<char>, ft: FileType, term: Option<Seq<char>>) -> RowView {
    RowView {
        text: tx,
        syntax: expand_tokens(spec_tokens(rules_of(ft), tx)),
        shading: match_overlay(tx, term),
    }
}

/// A freshly highlighted line carries exactly one syntax tag and one
/// match tag per character of its text.
pub proof fn lemma_highlighted_row_lengths(tx: Seq<char>, ft: FileType, term: Option<Seq<char>>)
    ensures
        highlighted_row(tx, ft, term).text == tx,
        highlighted_row(tx, ft, term).syntax.len() == tx.len(),
        highlighted_row(tx, ft, term).shading.len() == tx.len(),
{
    lemma_spec_tokens_expand_len(rules_of(ft), tx);
}

/// One line's text and overlays.
pub struct Row {
    string: Vec<char>,
    highlighting: Vec<Type>,
    shading: Vec<Type>,
}

/// The mathematical content of a line.
pub ghost struct RowView {
    pub text: Seq<char>,
    pub syntax: Seq<Type>,
    pub shading: Seq<Type>,
}

impl View for Row {
    type V = RowView;

    closed spec fn view(&self) -> RowView {
        RowView { text: self.string@, syntax: self.highlighting@, shading: self.shading@ }
    }
}

impl Row {
    /// A new line owning the given text, with empty overlays.
    pub fn new(string: String) -> (r: Row)
        ensures
            r@.text == string@,
            r@.syntax == Seq::<Type>::empty(),
            r@.shading == Seq::<Type>::empty(),
    {
        let text = chars_of(string.as_str());
        let highlighting: Vec<Type> = Vec::new();
        let shading: Vec<Type> = Vec::new();
        proof {
            assert(highlighting@ =~= Seq::<Type>::empty());
            assert(shading@ =~= Seq::<Type>::empty());
        }
        Row { string: text, highlighting, shading }
    }

    /// A new line owning the given characters, with empty overlays.
    pub fn from_chars(text: Vec<char>) -> (r: Row)
        ensures
            r@.text == text@,
            r@.syntax == Seq::<Type>::empty(),
            r@.shading == Seq::<Type>::empty(),
    {
        let highlighting: Vec<Type> = Vec::new();
        let shading: Vec<Type> = Vec::new();
        proof {
            assert(highlighting@ =~= Seq::<Type>::empty());
            assert(shading@ =~= Seq::<Type>::empty());
        }
        Row { string: text, highlighting, shading }
    }

    /// The number of characters on the line.
    pub fn len(&self) -> (r: usize)
        ensures
            r == self@.text.len(),
    {
        self.string.len()
    }

    /// The line's text.
    pub fn text(&self) -> (r: &Vec<char>)
        ensures
            r@ == self@.text,
    {
        &self.string
    }

    /// The syntax overlay: one kind tag per character after a
    /// `highlight` call, so the caller can map kinds to presentation.
    pub fn highlighting(&self) -> (r: &Vec<Type>)
        ensures
            r@ == self@.syntax,
    {
        &self.highlighting
    }

    /// The search-match overlay: one tag per character after a
    /// `highlight` call, `Match` inside found occurrences.
    pub fn shading(&self) -> (r: &Vec<Type>)
        ensures
            r@ == self@.shading,
    {
        &self.shading
    }

    /// The characters of the column range `[start, end)`, clamped to the
    /// line, in order: each character of the range exactly once.
    pub fn render(&self, start: usize, end: usize) -> (r: Vec<char>)
        ensures
            ({
                let e: int = if end > self@.text.len() {
                    self@.text.len() as int
                } else {
                    end as int
                };
                let s: int = if start as int > e {
                    e
                } else {
                    start as int
                };
                r@ == self@.text.subrange(s, e)
            }),
    {
        let e = if end > self.string.len() {
            self.string.len()
        } else {
            end
        };
        let s = if start > e {
            e
        } else {
            start
        };
        let mut r: Vec<char> = Vec::new();
        let mut i = s;
        proof {
            assert(r@ =~= self@.text.subrange(s as int, s as int));
        }
        while i < e
            invariant
                s <= i <= e <= self@.text.len(),
                r@ == self@.text.subrange(s as int, i as int),
            decreases e - i,
        {
            r.push(self.string[i]);
            proof {
                assert(r@ =~= self@.text.subrange(s as int, i + 1));
            }
            i += 1;
        }
        r
    }

    /// Insert `c` before column `at`; `at` equal to the length appends.
    /// The overlays are untouched and stale until the next `highlight`.
    pub fn insert(&mut self, c: char, at: usize)
        requires
            at <= old(self)@.text.len(),
        ensures
            final(self)@.text == old(self)@.text.insert(at as int, c),
            final(self)@.syntax == old(self)@.syntax,
            final(self)@.shading == old(self)@.shading,
    {
        self.string.insert(at, c);
    }

    /// Remove the character at column `at`; columns at or past the end
    /// are a silent no-op. The overlays are untouched and stale until
    /// the next `highlight`.
    pub fn delete(&mut self, at: usize)
        ensures
            final(self)@.text == (if at < old(self)@.text.len() {
                old(self)@.text.remove(at as int)
            } else {
                old(self)@.text
            }),
            final(self)@.syntax == old(self)@.syntax,
            final(self)@.shading == old(self)@.shading,
    {
        if at < self.string.len() {
            self.string.remove(at);
        }
    }

    /// Truncate this line to `[0, at)` and return a new line owning
    /// `[at, end)` (`at` is clamped to the length). Both halves start
    /// with empty overlays until re-highlighted.
    pub fn split(&mut self, pos: usize) -> (r: Row)
        ensures
            ({
                let cut: int = if pos as int > old(self)@.text.len() {
                    old(self)@.text.len() as int
                } else {
                    pos as int
                };
                &&& final(self)@.text == old(self)@.text.subrange(0, cut)
                &&& r@.text == old(self)@.text.subrange(cut, old(self)@.text.len() as int)
            }),
            final(self)@.syntax == Seq::<Type>::empty(),
            final(self)@.shading == Seq::<Type>::empty(),
            r@.syntax == Seq::<Type>::empty(),
            r@.shading == Seq::<Type>::empty(),
    {
        let ghost t = self.string@;
        let n = self.string.len();
        let cut = if pos > n {
            n
        } else {
            pos
        };
        let mut tail: Vec<char> = Vec::new();
        let mut i = cut;
        proof {
            assert(tail@ =~= t.subrange(cut as int, cut as int));
        }
        while i < n
            invariant
                t == self.string@,
                cut <= i <= n == t.len(),
                tail@ == t.subrange(cut as int, i as int),
            decreases n - i,
        {
            tail.push(self.string[i]);
            proof {
                assert(tail@ =~= t.subrange(cut as int, i + 1));
            }
            i += 1;
        }
        self.string.truncate(cut);
        self.highlighting = Vec::new();
        self.shading = Vec::new();
        let tail_syntax: Vec<Type> = Vec::new();
        let tail_shading: Vec<Type> = Vec::new();
        proof {
            assert(self.highlighting@ =~= Seq::<Type>::empty());
            assert(self.shading@ =~= Seq::<Type>::empty());
            assert(tail_syntax@ =~= Seq::<Type>::empty());
            assert(tail_shading@ =~= Seq::<Type>::empty());
        }
        Row { string: tail, highlighting: tail_syntax, shading: tail_shading }
    }

    /// Concatenate `other`'s text onto this line's end. The overlays are
    /// not merged; the caller must re-highlight.
    pub fn append(&mut self, other_row: &Row)
        ensures
            final(self)@.text == old(self)@.text + other_row@.text,
            final(self)@.syntax == old(self)@.syntax,
            final(self)@.shading == old(self)@.shading,
    {
        let ghost t0 = self.string@;
        let n = other_row.string.len();
        let mut i: usize = 0;
        proof {
            assert(t0 =~= t0 + other_row.string@.subrange(0, 0));
        }
        while i < n
            invariant
                n == other_row.string@.len(),
                0 <= i <= n,
                t0 == old(self)@.text,
                self.string@ == t0 + other_row.string@.subrange(0, i as int),
                self.highlighting@ == old(self)@.syntax,
                self.shading@ == old(self)@.shading,
            decreases n - i,
        {
            self.string.push(other_row.string[i]);
            proof {
                assert(self.string@ =~= t0 + other_row.string@.subrange(0, i + 1));
            }
            i += 1;
        }
        proof {
            assert(other_row.string@.subrange(0, n as int) =~= other_row.string@);
        }
    }

    /// Case-sensitive substring search within this line only, returning
    /// the column immediately after the match (match start plus query
    /// length), per `row_find_forward` / `row_find_backward`.
    pub fn find(&self, query: &String, start: usize, direction: SearchDirection) -> (r: Option<
        usize,
    >)
        ensures
            match direction {
                SearchDirection::Forward => match r {
                    Some(x) => row_find_forward(self@.text, query@, start as int) == Some(
                        x as int,
                    ),
                    None => row_find_forward(self@.text, query@, start as int) is None,
                },
                SearchDirection::Backward => match r {
                    Some(x) => row_find_backward(self@.text, query@, start as int) == Some(
                        x as int,
                    ),
                    None => row_find_backward(self@.text, query@, start as int) is None,
                },
            },
    {
        let q = chars_of(query.as_str());
        match direction {
            SearchDirection::Forward => find_forward(&self.string, &q, start),
            SearchDirection::Backward => find_backward(&self.string, &q, start),
        }
    }

    /// Recompute both overlays: the syntax overlay by tokenizing the
    /// line and expanding each token's kind across the characters it
    /// covers, and the match overlay by repeatedly searching forward
    /// for the term from the previous occurrence's end. After the call
    /// both overlays are exactly one tag per character.
    pub fn highlight(&mut self, filetype: &FileType, search_word: &Option<String>)
        ensures
            final(self)@.text == old(self)@.text,
            final(self)@.syntax == expand_tokens(
                spec_tokens(rules_of(*filetype), old(self)@.text),
            ),
            final(self)@.shading == match_overlay(
                old(self)@.text,
                match search_word {
                    Some(w) => Some(w@),
                    None => None,
                },
            ),
            final(self)@.syntax.len() == final(self)@.text.len(),
            final(self)@.shading.len() == final(self)@.text.len(),
            final(self)@ == highlighted_row(
                old(self)@.text,
                *filetype,
                match search_word {
                    Some(w) => Some(w@),
                    None => None,
                },
            ),
    {
        let ghost t = self.string@;
        let ghost rules = rules_of(*filetype);
        let tokens = Token::tokenize(filetype, &self.string);
        proof {
            assert(token_views(tokens@) =~= spec_tokens(rules, t));
        }
        let mut highlighting: Vec<Type> = Vec::new();
        let mut shading: Vec<Type> = Vec::new();
        let n_tok = tokens.len();
        let mut idx: usize = 0;
        proof {
            assert(tokens@.take(0) =~= Seq::<Token>::empty());
            assert(token_views(tokens@.take(0)) =~= Seq::<TokenView>::empty());
            assert(highlighting@ =~= expand_tokens(token_views(tokens@.take(0))));
        }
        while idx < n_tok
            invariant
                n_tok == tokens@.len(),
                0 <= idx <= n_tok,
                highlighting@ == expand_tokens(token_views(tokens@.take(idx as int))),
                shading@.len() == highlighting@.len(),
                forall|k: int| 0 <= k < shading@.len() ==> shading@[k] == Type::Plain,
            decreases n_tok - idx,
        {
            let tok_len = tokens[idx].value.len();
            let ghost base = highlighting@;
            let ghost kind = tokens@[idx as int]@.token_type;
            let mut c: usize = 0;
            proof {
                assert(highlighting@ =~= base + Seq::new(0, |k2: int| kind));
            }
            while c < tok_len
                invariant
                    n_tok == tokens@.len(),
                    idx < n_tok,
                    tok_len == tokens@[idx as int]@.value.len(),
                    kind == tokens@[idx as int]@.token_type,
                    0 <= c <= tok_len,
                    highlighting@ == base + Seq::new(c as nat, |k2: int| kind),
                    shading@.len() == highlighting@.len(),
                    forall|k: int| 0 <= k < shading@.len() ==> shading@[k] == Type::Plain,
                decreases tok_len - c,
            {
                let knd = tokens[idx].token_type;
                highlighting.push(knd);
                shading.push(Type::Plain);
                proof {
                    assert(highlighting@ =~= base + Seq::new((c + 1) as nat, |k2: int| kind));
                }
                c += 1;
            }
            proof {
                lemma_expand_tokens_push(
                    token_views(tokens@.take(idx as int)),
                    tokens@[idx as int]@,
                );
                assert(tokens@.take(idx as int + 1) =~= tokens@.take(idx as int).push(
                    tokens@[idx as int],
                ));
                assert(token_views(tokens@.take(idx as int).push(tokens@[idx as int])) =~=
                    token_views(tokens@.take(idx as int)).push(tokens@[idx as int]@));
                assert(highlighting@ =~= expand_tokens(token_views(tokens@.take(idx as int + 1))));
            }
            idx += 1;
        }
        proof {
            assert(tokens@.take(n_tok as int) =~= tokens@);
            lemma_expand_tokens_len(tokens@);
            assert(highlighting@.len() == t.len());
        }
        match search_word {
            Some(word) => {
                let w = chars_of(word.as_str());
                if w.len() > 0 {
                    let mut si: usize = 0;
                    proof {
                        assert(shaded_upto(t, w@, 0, shading@));
                        assert(marking_tail(t, w@, 0));
                    }
                    loop
                        invariant
                            t == self.string@,
                            w@.len() > 0,
                            0 <= si <= t.len(),
                            shaded_upto(t, w@, si as int, shading@),
                            marking_tail(t, w@, si as int),
                        ensures
                            shaded_upto(t, w@, t.len() as int, shading@),
                            marking_tail(t, w@, t.len() as int + 1),
                        decreases t.len() - si,
                    {
                        match find_forward(&self.string, &w, si) {
                            Some(endx) => {
                                proof {
                                    lemma_first_match_from(t, w@, si as int);
                                }
                                let ghost m = endx as int - w@.len();
                                proof {
                                    assert(first_match_from(t, w@, si as int) == Some(m));
                                    assert(si as int <= m && is_match_at(t, w@, m));
                                    assert((si as int) < (endx as int) && (endx as int)
                                        <= t.len());
                                }
                                let mstart = endx - w.len();
                                let ghost shading0 = shading@;
                                let mut j = mstart;
                                while j < endx
                                    invariant
                                        mstart <= j <= endx,
                                        endx as int <= t.len(),
                                        shading@.len() == t.len(),
                                        shading0.len() == t.len(),
                                        forall|k: int|
                                            #![trigger shading@[k]]
                                            0 <= k < t.len() && !(mstart as int <= k
                                                < j as int) ==> shading@[k] == shading0[k],
                                        forall|k: int|
                                            #![trigger shading@[k]]
                                            mstart as int <= k < j as int ==> shading@[k]
                                                == Type::Match,
                                    decreases endx - j,
                                {
                                    shading[j] = Type::Match;
                                    j += 1;
                                }
                                proof {
                                    assert(shaded_upto(t, w@, endx as int, shading@)) by {
                                        assert forall|k: int|
                                            #![trigger shading@[k]]
                                            0 <= k < t.len() implies shading@[k] == (
                                        if marked_from(t, w@, 0, k) && k < endx as int {
                                            Type::Match
                                        } else {
                                            Type::Plain
                                        }) by {
                                            assert(shading0[k] == (if marked_from(t, w@, 0, k)
                                                && k < si as int {
                                                Type::Match
                                            } else {
                                                Type::Plain
                                            }));
                                            if si as int <= k {
                                                assert(marked_from(t, w@, 0, k) <==> marked_from(
                                                    t,
                                                    w@,
                                                    si as int,
                                                    k,
                                                ));
                                                assert(marked_from(t, w@, si as int, k) == ((m <= k
                                                    && k < endx as int) || marked_from(
                                                    t,
                                                    w@,
                                                    endx as int,
                                                    k,
                                                )));
                                                if marked_from(t, w@, endx as int, k) {
                                                    lemma_marked_from_range(t, w@, endx as int, k);
                                                }
                                            }
                                            if (mstart as int) <= k && k < endx as int {
                                                assert(shading@[k] == Type::Match);
                                            } else {
                                                assert(shading@[k] == shading0[k]);
                                            }
                                        }
                                    }
                                    assert(marking_tail(t, w@, endx as int)) by {
                                        assert forall|k: int|
                                            #![trigger marked_from(t, w@, endx as int, k)]
                                            (endx as int) <= k implies (marked_from(t, w@, 0, k)
                                            <==> marked_from(t, w@, endx as int, k)) by {
                                            assert(marked_from(t, w@, 0, k) <==> marked_from(
                                                t,
                                                w@,
                                                si as int,
                                                k,
                                            ));
                                            assert(marked_from(t, w@, si as int, k) == ((m <= k
                                                && k < endx as int) || marked_from(
                                                t,
                                                w@,
                                                endx as int,
                                                k,
                                            )));
                                            if marked_from(t, w@, endx as int, k) {
                                                lemma_marked_from_range(t, w@, endx as int, k);
                                            }
                                        }
                                    }
                                }
                                si = endx;
                            },
                            None => {
                                proof {
                                    assert(shaded_upto(t, w@, t.len() as int, shading@)) by {
                                        assert forall|k: int|
                                            #![trigger shading@[k]]
                                            0 <= k < t.len() implies shading@[k] == (
                                        if marked_from(t, w@, 0, k) && k < t.len() {
                                            Type::Match
                                        } else {
                                            Type::Plain
                                        }) by {
                                            assert(shading@[k] == (if marked_from(t, w@, 0, k)
                                                && k < si as int {
                                                Type::Match
                                            } else {
                                                Type::Plain
                                            }));
                                            if si as int <= k {
                                                assert(!marked_from(t, w@, si as int, k));
                                            }
                                        }
                                    }
                                    assert(marking_tail(t, w@, t.len() as int + 1)) by {
                                        assert forall|k: int|
                                            #![trigger marked_from(t, w@, t.len() as int + 1, k)]
                                            t.len() as int + 1 <= k implies (marked_from(
                                            t,
                                            w@,
                                            0,
                                            k,
                                        ) <==> marked_from(t, w@, t.len() as int + 1, k)) by {
                                            assert(!marked_from(t, w@, t.len() as int + 1, k));
                                            if marked_from(t, w@, 0, k) {
                                                lemma_marked_from_range(t, w@, 0, k);
                                            }
                                        }
                                    }
                                }
                                break ;
                            },
                        }
                    }
                    proof {
                        assert forall|k: int|
                            0 <= k < t.len() implies shading@[k] == match_overlay(t, Some(w@))[k] by {
                            assert(shading@[k] == (if marked_from(t, w@, 0, k) && k
                                < t.len() as int {
                                Type::Match
                            } else {
                                Type::Plain
                            }));
                            if marked_from(t, w@, 0, k) {
                                lemma_marked_from_range(t, w@, 0, k);
                            }
                        }
                        assert(shading@ =~= match_overlay(t, Some(w@)));
                    }
                } else {
                    proof {
                        assert forall|k: int|
                            0 <= k < t.len() implies shading@[k] == match_overlay(t, Some(w@))[k] by {
                            assert(shading@[k] == Type::Plain);
                            assert(!marked_from(t, w@, 0, k));
                        }
                        assert(shading@ =~= match_overlay(t, Some(w@)));
                    }
                }
            },
            None => {
                proof {
                    assert(shading@ =~= match_overlay(t, None));
                }
            },
        }
        self.highlighting = highlighting;
        self.shading = shading;
    }
}

/// Round trip: splitting a line at a column and appending the returned
/// tail back onto the truncated head reconstructs the original text
/// exactly. Stated over the text model that `split` and `append`
/// promise: head `[0, at)` plus tail `[at, end)` is the whole line.
pub proof fn lemma_split_append_round_trip(t: Seq<char>, at: int)
    requires
        0 <= at <= t.len(),
    ensures
        t.subrange(0, at) + t.subrange(at, t.len() as int) == t,
{
    assert(t.subrange(0, at) + t.subrange(at, t.len() as int) =~= t);
}

} // verus!
