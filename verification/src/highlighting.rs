//! The tokenizer: splits one line of text into an ordered sequence of
//! typed tokens, covering the whole line with no gaps and no overlaps.
//!
//! Scanning is a single left-to-right pass. Characters accumulate into a
//! pending span until a delimiter is seen; string and character literals
//! keep the span open across delimiters; a second consecutive `/` turns
//! the rest of the line into one span. Every flushed span is classified
//! by an ordered list of rules, first match wins.

use vstd::prelude::*;
use crate::chars::{
    all_whitespace, ascii_punctuation, chars_eq, delimiter, is_ascii_punctuation_char,
    is_delimiter_char, is_numeric, numeric_after_trim, trim, whitespace_only,
};
use crate::filetype::{FileType, HighlightingOptions, RulesView, rules_of};

verus! {

/// The lexical category assigned to one token (and, expanded, to each
/// character the token covers).
#[derive(Clone, Copy, Debug, PartialEq, Eq, Structural)]
pub enum Type {
    /// Content no rule claimed.
    Plain,
    /// A run of digits.
    Number,
    /// A character inside the currently highlighted search occurrence.
    Match,
    /// A double-quoted literal.
    StringLiteral,
    /// A single-quoted literal.
    CharacterLiteral,
    /// A `//` comment running to the end of the line.
    Comment,
    PrimaryKeywords,
    SecondaryKeywords,
    WhiteSpace,
    /// A single ASCII punctuation character.
    Punctuation,
}

/// A classified contiguous span of one line's text.
pub struct Token {
    pub value: Vec<char>,
    pub token_type: Type,
}

/// The mathematical content of a token.
pub ghost struct TokenView {
    pub value: Seq<char>,
    pub token_type: Type,
}

impl View for Token {
    type V = TokenView;

    open spec fn view(&self) -> TokenView {
        TokenView { value: self.value@, token_type: self.token_type }
    }
}

/// The classification rules of one span, in precedence order, first match
/// wins: all-whitespace, number (after trimming whitespace margins),
/// string, character literal, comment, primary keyword, secondary
/// keyword, single punctuation character, plain. A category only applies
/// when the rules enable it.
pub open spec fn classify_spec(rules: RulesView, s: Seq<char>) -> Type {
    if all_whitespace(s) {
        Type::WhiteSpace
    } else if rules.numbers && is_numeric(trim(s)) {
        Type::Number
    } else if rules.strings && s.len() >= 1 && s[0] == '"' && s[s.len() - 1] == '"' {
        Type::StringLiteral
    } else if rules.characters && s.len() >= 1 && s[0] == '\'' && s[s.len() - 1] == '\'' {
        Type::CharacterLiteral
    } else if rules.comments && s.len() >= 2 && s[0] == '/' && s[1] == '/' {
        Type::Comment
    } else if rules.primary_keywords.contains(s) {
        Type::PrimaryKeywords
    } else if rules.secondary_keywords.contains(s) {
        Type::SecondaryKeywords
    } else if rules.punctuation && s.len() == 1 && is_ascii_punctuation_char(s[0]) {
        Type::Punctuation
    } else {
        Type::Plain
    }
}

/// Whether `w` occurs in a keyword table.
fn contains_word(list: &Vec<Vec<char>>, w: &Vec<char>) -> (r: bool)
    ensures
        r <==> list@.map_values(|x: Vec<char>| x@).contains(w@),
{
    let ghost lv = list@.map_values(|x: Vec<char>| x@);
    let n = list.len();
    let mut i: usize = 0;
    while i < n
        invariant
            n == list@.len(),
            0 <= i <= n,
            lv == list@.map_values(|x: Vec<char>| x@),
            forall|j: int| 0 <= j < i ==> lv[j] != w@,
        decreases n - i,
    {
        if chars_eq(&list[i], w) {
            assert(lv[i as int] == w@);
            return true;
        }
        i += 1;
    }
    assert(forall|j: int| 0 <= j < lv.len() ==> lv[j] != w@);
    false
}

impl Token {
    /// Classify one span under the given rules and wrap it as a token.
    /// The span's displayed text is returned exactly as it came in.
    pub fn from(options: &HighlightingOptions, string: Vec<char>) -> (r: Token)
        ensures
            r@.value == string@,
            r@.token_type == classify_spec(options@, string@),
    {
        let token_type = classify(options, &string);
        Token { value: string, token_type }
    }

    /// Split a line into tokens under the rules of `filetype`.
    ///
    /// The tokens' spans are exactly `scan_spans` of the line, each
    /// classified by `classify_spec`; concatenating the tokens' text
    /// gives back the line, so no character is dropped or duplicated.
    pub fn tokenize(filetype: &FileType, string: &Vec<char>) -> (r: Vec<Token>)
        ensures
            ({
                let spans = scan_spans(string@, 0, 0, false, false);
                &&& r@.len() == spans.len()
                &&& forall|k: int|
                    0 <= k < r@.len() ==> r@[k]@.value == string@.subrange(
                        spans[k].0,
                        spans[k].1,
                    ) && r@[k]@.token_type == classify_spec(
                        rules_of(*filetype),
                        string@.subrange(spans[k].0, spans[k].1),
                    )
            }),
            tokens_text(r@) == string@,
    {
        let options = filetype.highlighting_options();
        let n = string.len();
        let ghost t = string@;
        let ghost full = scan_spans(t, 0, 0, false, false);
        let mut tokens: Vec<Token> = Vec::new();
        let mut pending: Vec<char> = Vec::new();
        let ghost mut done: Seq<(int, int)> = Seq::empty();
        let ghost mut ps: int = 0;
        let mut in_s = false;
        let mut in_c = false;
        let mut i: usize = 0;
        proof {
            assert(pending@ =~= t.subrange(0, 0));
            assert(full =~= done + scan_spans(t, 0, 0, false, false));
        }
        while i < n
            invariant
                n == t.len(),
                t == string@,
                options@ == rules_of(*filetype),
                0 <= ps <= i as int <= n as int,
                pending@ == t.subrange(ps, i as int),
                in_s ==> i >= 1 && !in_c,
                tokens@.len() == done.len(),
                forall|k: int|
                    0 <= k < done.len() ==> tokens@[k]@.value == t.subrange(
                        done[k].0,
                        done[k].1,
                    ) && tokens@[k]@.token_type == classify_spec(
                        rules_of(*filetype),
                        t.subrange(done[k].0, done[k].1),
                    ),
                full == done + scan_spans(t, i as int, ps, in_s, in_c),
            decreases n - i,
        {
            let ghost spans_here = scan_spans(t, i as int, ps, in_s, in_c);
            let c = string[i];
            if in_s {
                pending.push(c);
                proof {
                    assert(pending@ =~= t.subrange(ps, i + 1));
                }
                if c == '"' && string[i - 1] != '\\' {
                    let ghost rest = scan_spans(t, i + 1, i + 1, false, false);
                    proof {
                        assert(spans_here == seq![(ps, i + 1)] + rest);
                    }
                    let tok = Token::from(&options, pending);
                    pending = Vec::new();
                    tokens.push(tok);
                    proof {
                        done = done + seq![(ps, i + 1)];
                        ps = i + 1;
                        assert(full =~= done + rest);
                        assert(pending@ =~= t.subrange(ps, i + 1));
                    }
                    in_s = false;
                }
                i += 1;
            } else if in_c {
                pending.push(c);
                proof {
                    assert(pending@ =~= t.subrange(ps, i + 1));
                }
                if c == '\'' {
                    let ghost rest = scan_spans(t, i + 1, i + 1, false, false);
                    proof {
                        assert(spans_here == seq![(ps, i + 1)] + rest);
                    }
                    let tok = Token::from(&options, pending);
                    pending = Vec::new();
                    tokens.push(tok);
                    proof {
                        done = done + seq![(ps, i + 1)];
                        ps = i + 1;
                        assert(full =~= done + rest);
                        assert(pending@ =~= t.subrange(ps, i + 1));
                    }
                    in_c = false;
                }
                i += 1;
            } else if c == '/' && i + 1 < n && string[i + 1] == '/' {
                let ghost pre: Seq<(int, int)> = if ps < i as int {
                    seq![(ps, i as int)]
                } else {
                    Seq::empty()
                };
                proof {
                    assert(spans_here == pre + seq![(i as int, n as int)]);
                }
                let ghost done0 = done;
                if pending.len() > 0 {
                    let tok = Token::from(&options, pending);
                    pending = Vec::new();
                    tokens.push(tok);
                    proof {
                        done = done + seq![(ps, i as int)];
                        assert(done =~= done0 + pre);
                    }
                } else {
                    proof {
                        assert(pre =~= Seq::<(int, int)>::empty());
                        assert(done =~= done0 + pre);
                    }
                }
                let start = i;
                let mut restv: Vec<char> = Vec::new();
                let mut j = i;
                while j < n
                    invariant
                        n == t.len(),
                        t == string@,
                        start as int <= j as int <= n as int,
                        restv@ == t.subrange(start as int, j as int),
                    decreases n - j,
                {
                    restv.push(string[j]);
                    proof {
                        assert(restv@ =~= t.subrange(start as int, j + 1));
                    }
                    j += 1;
                }
                let tok = Token::from(&options, restv);
                tokens.push(tok);
                proof {
                    done = done + seq![(start as int, n as int)];
                    assert(done =~= done0 + (pre + seq![(start as int, n as int)]));
                    ps = n as int;
                    assert(full =~= done + scan_spans(t, n as int, n as int, false, false));
                    assert(pending@ =~= t.subrange(n as int, n as int));
                }
                i = n;
            } else if c == '"' {
                pending.push(c);
                proof {
                    assert(pending@ =~= t.subrange(ps, i + 1));
                }
                in_s = true;
                i += 1;
            } else if c == '\'' {
                pending.push(c);
                proof {
                    assert(pending@ =~= t.subrange(ps, i + 1));
                }
                in_c = true;
                i += 1;
            } else if delimiter(c) {
                let ghost pre: Seq<(int, int)> = if ps < i as int {
                    seq![(ps, i as int)]
                } else {
                    Seq::empty()
                };
                let ghost rest = scan_spans(t, i + 1, i + 1, false, false);
                proof {
                    assert(spans_here == pre + seq![(i as int, i + 1)] + rest);
                }
                if pending.len() > 0 {
                    let tok = Token::from(&options, pending);
                    pending = Vec::new();
                    tokens.push(tok);
                    proof {
                        done = done + seq![(ps, i as int)];
                    }
                } else {
                    proof {
                        assert(pre =~= Seq::<(int, int)>::empty());
                        assert(done + pre =~= done);
                    }
                }
                let mut single: Vec<char> = Vec::new();
                single.push(c);
                proof {
                    assert(single@ =~= t.subrange(i as int, i + 1));
                }
                let tok = Token::from(&options, single);
                tokens.push(tok);
                proof {
                    done = done + seq![(i as int, i + 1)];
                    ps = i + 1;
                    assert(full =~= done + rest);
                    assert(pending@ =~= t.subrange(ps, i + 1));
                }
                i += 1;
            } else {
                pending.push(c);
                proof {
                    assert(pending@ =~= t.subrange(ps, i + 1));
                }
                i += 1;
            }
        }
        let ghost tail = scan_spans(t, n as int, ps, in_s, in_c);
        if pending.len() > 0 {
            proof {
                assert(tail == seq![(ps, n as int)]);
            }
            let tok = Token::from(&options, pending);
            tokens.push(tok);
            proof {
                done = done + seq![(ps, n as int)];
                assert(full =~= done);
            }
        } else {
            proof {
                assert(tail =~= Seq::<(int, int)>::empty());
                assert(full =~= done);
            }
        }
        proof {
            lemma_tokens_text_from_spans(t, tokens@, done);
            lemma_scan_covers(t, 0, 0, false, false);
            assert(t.subrange(0, n as int) =~= t);
        }
        tokens
    }
}

/// The spans the scanner emits from state `(i, ps, in_s, in_c)`:
/// position `i`, pending span starting at `ps`, inside a string literal,
/// inside a character literal. Each span is a half-open character range.
///
/// One step reads the character at `i`. Inside a string, an unescaped
/// closing quote flushes the span; inside a character literal, a quote
/// flushes it. Otherwise a second consecutive `/` turns the rest of the
/// line into one final span; an opening quote keeps the pending span
/// accumulating; any other delimiter flushes the pending span and is
/// emitted as a one-character span of its own. At the end of the line
/// the pending span is flushed.
pub open spec fn scan_spans(t: Seq<char>, i: int, ps: int, in_s: bool, in_c: bool) -> Seq<
    (int, int),
>
    decreases t.len() - i,
{
    if i >= t.len() {
        if ps < i {
            seq![(ps, i)]
        } else {
            Seq::empty()
        }
    } else {
        let c = t[i];
        if in_s {
            if c == '"' && t[i - 1] != '\\' {
                seq![(ps, i + 1)] + scan_spans(t, i + 1, i + 1, false, false)
            } else {
                scan_spans(t, i + 1, ps, true, false)
            }
        } else if in_c {
            if c == '\'' {
                seq![(ps, i + 1)] + scan_spans(t, i + 1, i + 1, false, false)
            } else {
                scan_spans(t, i + 1, ps, false, true)
            }
        } else if c == '/' && i + 1 < t.len() && t[i + 1] == '/' {
            (if ps < i {
                seq![(ps, i)]
            } else {
                Seq::empty()
            }) + seq![(i, t.len() as int)]
        } else if c == '"' {
            scan_spans(t, i + 1, ps, true, false)
        } else if c == '\'' {
            scan_spans(t, i + 1, ps, false, true)
        } else if is_delimiter_char(c) {
            (if ps < i {
                seq![(ps, i)]
            } else {
                Seq::empty()
            }) + seq![(i, i + 1)] + scan_spans(t, i + 1, i + 1, false, false)
        } else {
            scan_spans(t, i + 1, ps, false, false)
        }
    }
}

/// The text the spans cover, concatenated in order.
pub open spec fn spans_text(t: Seq<char>, spans: Seq<(int, int)>) -> Seq<char>
    decreases spans.len(),
{
    if spans.len() == 0 {
        Seq::empty()
    } else {
        t.subrange(spans[0].0, spans[0].1) + spans_text(t, spans.drop_first())
    }
}

/// Coverage: from any reachable scanner state, the emitted spans cover
/// exactly the text from the pending start to the end of the line.
pub proof fn lemma_scan_covers(t: Seq<char>, i: int, ps: int, in_s: bool, in_c: bool)
    requires
        0 <= ps <= i <= t.len(),
    ensures
        spans_text(t, scan_spans(t, i, ps, in_s, in_c)) == t.subrange(ps, t.len() as int),
    decreases t.len() - i,
{
    let all = scan_spans(t, i, ps, in_s, in_c);
    let len = t.len() as int;
    if i >= len {
        if ps < i {
            assert(all == seq![(ps, i)]);
            assert(all.drop_first() =~= Seq::<(int, int)>::empty());
            assert(spans_text(t, all.drop_first()) == Seq::<char>::empty());
            assert(spans_text(t, all) =~= t.subrange(ps, len));
        } else {
            assert(spans_text(t, all) =~= t.subrange(ps, len));
        }
    } else {
        let c = t[i];
        if in_s {
            if c == '"' && t[i - 1] != '\\' {
                let rest = scan_spans(t, i + 1, i + 1, false, false);
                lemma_scan_covers(t, i + 1, i + 1, false, false);
                assert(all == seq![(ps, i + 1)] + rest);
                assert(all[0] == (ps, i + 1));
                assert(all.drop_first() =~= rest);
                assert(spans_text(t, all) == t.subrange(ps, i + 1) + spans_text(t, rest));
                assert(spans_text(t, all) =~= t.subrange(ps, len));
            } else {
                lemma_scan_covers(t, i + 1, ps, true, false);
            }
        } else if in_c {
            if c == '\'' {
                let rest = scan_spans(t, i + 1, i + 1, false, false);
                lemma_scan_covers(t, i + 1, i + 1, false, false);
                assert(all == seq![(ps, i + 1)] + rest);
                assert(all[0] == (ps, i + 1));
                assert(all.drop_first() =~= rest);
                assert(spans_text(t, all) == t.subrange(ps, i + 1) + spans_text(t, rest));
                assert(spans_text(t, all) =~= t.subrange(ps, len));
            } else {
                lemma_scan_covers(t, i + 1, ps, false, true);
            }
        } else if c == '/' && i + 1 < len && t[i + 1] == '/' {
            if ps < i {
                assert(all =~= seq![(ps, i), (i, len)]);
                let d1 = all.drop_first();
                assert(d1 =~= seq![(i, len)]);
                assert(d1.drop_first() =~= Seq::<(int, int)>::empty());
                assert(spans_text(t, d1.drop_first()) == Seq::<char>::empty());
                assert(spans_text(t, d1) == t.subrange(i, len) + spans_text(t, d1.drop_first()));
                assert(spans_text(t, all) == t.subrange(ps, i) + spans_text(t, d1));
                assert(spans_text(t, all) =~= t.subrange(ps, len));
            } else {
                assert(all =~= seq![(i, len)]);
                assert(all.drop_first() =~= Seq::<(int, int)>::empty());
                assert(spans_text(t, all.drop_first()) == Seq::<char>::empty());
                assert(spans_text(t, all) =~= t.subrange(ps, len));
            }
        } else if c == '"' {
            lemma_scan_covers(t, i + 1, ps, true, false);
        } else if c == '\'' {
            lemma_scan_covers(t, i + 1, ps, false, true);
        } else if is_delimiter_char(c) {
            let rest = scan_spans(t, i + 1, i + 1, false, false);
            lemma_scan_covers(t, i + 1, i + 1, false, false);
            if ps < i {
                assert(all =~= seq![(ps, i), (i, i + 1)] + rest);
                let d1 = all.drop_first();
                assert(d1 =~= seq![(i, i + 1)] + rest);
                assert(d1.drop_first() =~= rest);
                assert(spans_text(t, d1) == t.subrange(i, i + 1) + spans_text(t, rest));
                assert(spans_text(t, all) == t.subrange(ps, i) + spans_text(t, d1));
                assert(spans_text(t, all) =~= t.subrange(ps, len));
            } else {
                assert(all =~= seq![(i, i + 1)] + rest);
                assert(all.drop_first() =~= rest);
                assert(spans_text(t, all) == t.subrange(i, i + 1) + spans_text(t, rest));
                assert(spans_text(t, all) =~= t.subrange(ps, len));
            }
        } else {
            lemma_scan_covers(t, i + 1, ps, false, false);
        }
    }
}

/// The text of a token sequence, concatenated in order.
pub open spec fn tokens_text(ts: Seq<Token>) -> Seq<char>
    decreases ts.len(),
{
    if ts.len() == 0 {
        Seq::empty()
    } else {
        ts[0]@.value + tokens_text(ts.drop_first())
    }
}

/// Tokens whose values are exactly their spans' text concatenate to the
/// spans' text.
proof fn lemma_tokens_text_from_spans(t: Seq<char>, ts: Seq<Token>, spans: Seq<(int, int)>)
    requires
        ts.len() == spans.len(),
        forall|k: int| 0 <= k < ts.len() ==> ts[k]@.value == t.subrange(spans[k].0, spans[k].1),
    ensures
        tokens_text(ts) == spans_text(t, spans),
    decreases ts.len(),
{
    if ts.len() > 0 {
        lemma_tokens_text_from_spans(t, ts.drop_first(), spans.drop_first());
        assert(ts[0]@.value == t.subrange(spans[0].0, spans[0].1));
    }
}

/// The views of a token sequence.
pub open spec fn token_views(ts: Seq<Token>) -> Seq<TokenView> {
    ts.map_values(|tok: Token| tok@)
}

/// The token one span yields: its text and its classification.
pub open spec fn span_token(rules: RulesView, t: Seq<char>, sp: (int, int)) -> TokenView {
    TokenView {
        value: t.subrange(sp.0, sp.1),
        token_type: classify_spec(rules, t.subrange(sp.0, sp.1)),
    }
}

/// The tokens a span sequence yields.
pub open spec fn span_tokens(rules: RulesView, t: Seq<char>, spans: Seq<(int, int)>) -> Seq<
    TokenView,
> {
    spans.map_values(|sp: (int, int)| span_token(rules, t, sp))
}

/// The tokens of a line at the specification level: the scanner's
/// spans, each carrying its text and its classification.
pub open spec fn spec_tokens(rules: RulesView, t: Seq<char>) -> Seq<TokenView> {
    span_tokens(rules, t, scan_spans(t, 0, 0, false, false))
}

/// A span sequence's expansion is as long as the text it covers.
proof fn lemma_span_tokens_len(rules: RulesView, t: Seq<char>, spans: Seq<(int, int)>)
    ensures
        expand_tokens(span_tokens(rules, t, spans)).len() == spans_text(t, spans).len(),
    decreases spans.len(),
{
    if spans.len() == 0 {
        assert(span_tokens(rules, t, spans) =~= Seq::<TokenView>::empty());
    } else {
        lemma_span_tokens_len(rules, t, spans.drop_first());
        assert(span_tokens(rules, t, spans).drop_first() =~= span_tokens(
            rules,
            t,
            spans.drop_first(),
        ));
        assert(span_tokens(rules, t, spans)[0] == span_token(rules, t, spans[0]));
    }
}

/// A line's token expansion assigns exactly one kind per character.
pub proof fn lemma_spec_tokens_expand_len(rules: RulesView, t: Seq<char>)
    ensures
        expand_tokens(spec_tokens(rules, t)).len() == t.len(),
{
    lemma_span_tokens_len(rules, t, scan_spans(t, 0, 0, false, false));
    lemma_scan_covers(t, 0, 0, false, false);
    assert(t.subrange(0, t.len() as int) =~= t);
}

/// Each token's kind repeated once per character it covers, in order:
/// the syntax overlay that a token sequence induces.
pub open spec fn expand_tokens(ts: Seq<TokenView>) -> Seq<Type>
    decreases ts.len(),
{
    if ts.len() == 0 {
        Seq::empty()
    } else {
        Seq::new(ts[0].value.len(), |k: int| ts[0].token_type) + expand_tokens(ts.drop_first())
    }
}

/// Expanding after appending one token appends that token's expansion.
pub proof fn lemma_expand_tokens_push(vs: Seq<TokenView>, v: TokenView)
    ensures
        expand_tokens(vs.push(v)) == expand_tokens(vs) + Seq::new(
            v.value.len(),
            |k: int| v.token_type,
        ),
    decreases vs.len(),
{
    let whole = vs.push(v);
    if vs.len() == 0 {
        assert(whole[0] == v);
        assert(whole.drop_first() =~= Seq::<TokenView>::empty());
        assert(expand_tokens(whole.drop_first()) == Seq::<Type>::empty());
        assert(expand_tokens(whole) =~= expand_tokens(vs) + Seq::new(
            v.value.len(),
            |k: int| v.token_type,
        ));
    } else {
        assert(whole[0] == vs[0]);
        assert(whole.drop_first() =~= vs.drop_first().push(v));
        lemma_expand_tokens_push(vs.drop_first(), v);
        assert(expand_tokens(whole) =~= expand_tokens(vs) + Seq::new(
            v.value.len(),
            |k: int| v.token_type,
        ));
    }
}

/// The expansion of a token sequence is exactly as long as its text.
pub proof fn lemma_expand_tokens_len(ts: Seq<Token>)
    ensures
        expand_tokens(token_views(ts)).len() == tokens_text(ts).len(),
    decreases ts.len(),
{
    if ts.len() == 0 {
        assert(token_views(ts) =~= Seq::<TokenView>::empty());
    } else {
        lemma_expand_tokens_len(ts.drop_first());
        assert(token_views(ts).drop_first() =~= token_views(ts.drop_first()));
        assert(token_views(ts)[0] == ts[0]@);
    }
}

/// The executable mirror of `classify_spec`.
fn classify(options: &HighlightingOptions, v: &Vec<char>) -> (r: Type)
    ensures
        r == classify_spec(options@, v@),
{
    if whitespace_only(v) {
        return Type::WhiteSpace;
    }
    // Not all-whitespace, so the span is non-empty.
    assert(v@.len() >= 1);
    let last = v.len() - 1;
    if options.numbers && numeric_after_trim(v) {
        return Type::Number;
    }
    if options.strings && v[0] == '"' && v[last] == '"' {
        return Type::StringLiteral;
    }
    if options.characters && v[0] == '\'' && v[last] == '\'' {
        return Type::CharacterLiteral;
    }
    if options.comments && v.len() >= 2 && v[0] == '/' && v[1] == '/' {
        return Type::Comment;
    }
    if contains_word(&options.primary_keywords, v) {
        return Type::PrimaryKeywords;
    }
    if contains_word(&options.secondary_keywords, v) {
        return Type::SecondaryKeywords;
    }
    if options.punctuation && v.len() == 1 && ascii_punctuation(v[0]) {
        return Type::Punctuation;
    }
    Type::Plain
}

} // verus!
