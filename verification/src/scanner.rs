//! The tokenizer: grapheme clusters in, tokens out.
//!
//! Source text is first cut into extended grapheme clusters, so that every
//! operator glyph is seen as one unit.  Everything after that cut is defined
//! here over the sequence of clusters: [`scan`] says which tokens a sequence of
//! clusters stands for, and [`Scanner::tokenize`] computes exactly that.

use unicode_segmentation::UnicodeSegmentation;
use vstd::prelude::*;
use vstd::string::*;

verus! {

/// The operator symbols of the language.
#[derive(Clone, Copy, Debug, PartialEq, Eq, Structural)]
pub enum Op {
    Plus,
    Minus,
    Times,
    Divide,
    Floor,
    Ceiling,
    LeftTack,
    RightTack,
    Replicate,
}

/// One lexical unit of source text.
#[derive(Debug, PartialEq, Eq)]
pub enum Token {
    /// A maximal run of digits, kept as text.
    Number(String),
    /// The marker that negates the literal after it.
    HighMinus,
    Operator(Op),
    LeftParen,
    RightParen,
}

/// The mathematical content of a [`Token`]: number text as a sequence of
/// characters.
pub enum TokenView {
    Number(Seq<char>),
    HighMinus,
    Operator(Op),
    LeftParen,
    RightParen,
}

impl View for Token {
    type V = TokenView;

    open spec fn view(&self) -> TokenView {
        match self {
            Token::Number(text) => TokenView::Number(text@),
            Token::HighMinus => TokenView::HighMinus,
            Token::Operator(op) => TokenView::Operator(*op),
            Token::LeftParen => TokenView::LeftParen,
            Token::RightParen => TokenView::RightParen,
        }
    }
}

/// The views of a sequence of tokens, in order.
pub open spec fn token_views(tokens: Seq<Token>) -> Seq<TokenView> {
    Seq::new(tokens.len(), |i: int| tokens[i]@)
}

/// The character sequences of a sequence of string slices, in order.
pub open spec fn texts(graphemes: Seq<&str>) -> Seq<Seq<char>> {
    Seq::new(graphemes.len(), |i: int| graphemes[i]@)
}

/// `c` is one of the ten ASCII digits.
pub open spec fn is_digit_char(c: char) -> bool {
    '0' <= c <= '9'
}

/// `g` is a cluster made of a single ASCII digit.
pub open spec fn is_digit(g: Seq<char>) -> bool {
    g.len() == 1 && is_digit_char(g[0])
}

/// The token that the character `c` stands for when it is a cluster of its
/// own; `None` for the space and for every character outside the symbol table.
pub open spec fn symbol_of_char(c: char) -> Option<TokenView> {
    if c == '¯' {
        Some(TokenView::HighMinus)
    } else if c == '+' {
        Some(TokenView::Operator(Op::Plus))
    } else if c == '-' {
        Some(TokenView::Operator(Op::Minus))
    } else if c == '×' {
        Some(TokenView::Operator(Op::Times))
    } else if c == '÷' {
        Some(TokenView::Operator(Op::Divide))
    } else if c == '⌊' {
        Some(TokenView::Operator(Op::Floor))
    } else if c == '⌈' {
        Some(TokenView::Operator(Op::Ceiling))
    } else if c == '⊣' {
        Some(TokenView::Operator(Op::LeftTack))
    } else if c == '⊢' {
        Some(TokenView::Operator(Op::RightTack))
    } else if c == '/' {
        Some(TokenView::Operator(Op::Replicate))
    } else if c == '(' {
        Some(TokenView::LeftParen)
    } else if c == ')' {
        Some(TokenView::RightParen)
    } else {
        None
    }
}

/// The token that a cluster other than a digit stands for, if any.  A cluster
/// of several characters is never a symbol, even when it starts with one.
pub open spec fn symbol(g: Seq<char>) -> Option<TokenView> {
    if g.len() == 1 {
        symbol_of_char(g[0])
    } else {
        None
    }
}

/// `g` is a cluster that the scan reports as unknown: no digit, no symbol of
/// the table and not the space.
pub open spec fn unknown(g: Seq<char>) -> bool {
    !is_digit(g) && symbol(g) is None && g != seq![' ']
}

/// Where the maximal run of digit clusters that starts at `i` ends: the first
/// index from `i` on that holds no digit, or the length of `gs`.
pub open spec fn run_end(gs: Seq<Seq<char>>, i: int) -> int
    decreases gs.len() - i,
{
    if 0 <= i < gs.len() && is_digit(gs[i]) {
        run_end(gs, i + 1)
    } else {
        i
    }
}

/// The clusters `gs[i..j]` written one after the other.
pub open spec fn run_text(gs: Seq<Seq<char>>, i: int, j: int) -> Seq<char>
    decreases j - i,
{
    if i < j {
        run_text(gs, i, j - 1) + gs[j - 1]
    } else {
        Seq::empty()
    }
}

/// The tokens that the clusters from index `i` on stand for.
///
/// A maximal run of digits is one `Number`; a symbol of the table is its
/// token; anything else, the space included, separates and is dropped.
pub open spec fn scan(gs: Seq<Seq<char>>, i: int) -> Seq<TokenView>
    decreases gs.len() - i,
{
    if i < 0 || i >= gs.len() {
        Seq::empty()
    } else if is_digit(gs[i]) {
        let j = run_end(gs, i);
        proof {
            lemma_run_end_bounds(gs, i + 1);
        }
        seq![TokenView::Number(run_text(gs, i, j))] + scan(gs, j)
    } else {
        match symbol(gs[i]) {
            Some(token) => seq![token] + scan(gs, i + 1),
            None => scan(gs, i + 1),
        }
    }
}

/// A run never ends before it starts, nor beyond the input.
pub proof fn lemma_run_end_bounds(gs: Seq<Seq<char>>, i: int)
    requires
        0 <= i <= gs.len(),
    ensures
        i <= run_end(gs, i) <= gs.len(),
    decreases gs.len() - i,
{
    if i < gs.len() && is_digit(gs[i]) {
        lemma_run_end_bounds(gs, i + 1);
    }
}

/// Putting `b` behind `a` cuts no run of digits in two: at the seam, one side
/// is empty or does not hold a digit.
pub open spec fn seam_is_clean(a: Seq<Seq<char>>, b: Seq<Seq<char>>) -> bool {
    a.len() == 0 || b.len() == 0 || !is_digit(a.last()) || !is_digit(b.first())
}

/// A run in `b` ends at the same cluster when `a` stands in front of `b`.
proof fn lemma_run_end_shift(a: Seq<Seq<char>>, b: Seq<Seq<char>>, k: int)
    requires
        0 <= k <= b.len(),
    ensures
        run_end(a + b, a.len() + k) == a.len() + run_end(b, k),
    decreases b.len() - k,
{
    if k < b.len() {
        if is_digit(b[k]) {
            lemma_run_end_shift(a, b, k + 1);
        }
    }
}

/// A run in `b` has the same text when `a` stands in front of `b`.
proof fn lemma_run_text_shift(a: Seq<Seq<char>>, b: Seq<Seq<char>>, i: int, j: int)
    requires
        0 <= i,
        j <= b.len(),
    ensures
        run_text(a + b, a.len() + i, a.len() + j) == run_text(b, i, j),
    decreases j - i,
{
    if i < j {
        lemma_run_text_shift(a, b, i, j - 1);
    }
}

/// The tokens of `b` are not changed by what stands in front of `b`.
proof fn lemma_scan_shift(a: Seq<Seq<char>>, b: Seq<Seq<char>>, k: int)
    requires
        0 <= k <= b.len(),
    ensures
        scan(a + b, a.len() + k) == scan(b, k),
    decreases b.len() - k,
{
    if k < b.len() {
        if is_digit(b[k]) {
            lemma_run_end_bounds(b, k + 1);
            lemma_run_end_shift(a, b, k);
            lemma_run_text_shift(a, b, k, run_end(b, k));
            lemma_scan_shift(a, b, run_end(b, k));
        } else {
            lemma_scan_shift(a, b, k + 1);
        }
    }
}

/// A run in `a` ends at the same cluster when `b` stands behind `a` at a
/// clean seam.
proof fn lemma_run_end_prefix(a: Seq<Seq<char>>, b: Seq<Seq<char>>, i: int)
    requires
        0 <= i < a.len(),
        seam_is_clean(a, b),
    ensures
        run_end(a + b, i) == run_end(a, i),
    decreases a.len() - i,
{
    assert((a + b)[i] == a[i]);
    if is_digit(a[i]) {
        if i + 1 < a.len() {
            lemma_run_end_prefix(a, b, i + 1);
        } else if b.len() > 0 {
            assert(a.last() == a[i]);
            assert((a + b)[i + 1] == b.first());
        }
    }
}

/// A run in `a` has the same text when `b` stands behind `a`.
proof fn lemma_run_text_prefix(a: Seq<Seq<char>>, b: Seq<Seq<char>>, i: int, j: int)
    requires
        0 <= i,
        j <= a.len(),
    ensures
        run_text(a + b, i, j) == run_text(a, i, j),
    decreases j - i,
{
    if i < j {
        lemma_run_text_prefix(a, b, i, j - 1);
    }
}

/// From any index in `a` on, the tokens of `a + b` are those of `a` and then
/// all those of `b`, where the seam is clean.
proof fn lemma_scan_prefix(a: Seq<Seq<char>>, b: Seq<Seq<char>>, i: int)
    requires
        0 <= i <= a.len(),
        seam_is_clean(a, b),
    ensures
        scan(a + b, i) == scan(a, i) + scan(b, 0),
    decreases a.len() - i,
{
    if i == a.len() {
        lemma_scan_shift(a, b, 0);
    } else if is_digit(a[i]) {
        let j = run_end(a, i);
        lemma_run_end_bounds(a, i + 1);
        lemma_run_end_prefix(a, b, i);
        lemma_run_text_prefix(a, b, i, j);
        lemma_scan_prefix(a, b, j);
    } else {
        lemma_scan_prefix(a, b, i + 1);
        if let Some(token) = symbol(a[i]) {
            assert(seq![token] + (scan(a, i + 1) + scan(b, 0)) =~= (seq![token] + scan(a, i + 1))
                + scan(b, 0));
        }
    }
}

/// Clusters that meet at a clean seam are scanned each on its own: the tokens
/// of the whole are the tokens of the first part and then those of the second.
pub proof fn lemma_scan_concat(a: Seq<Seq<char>>, b: Seq<Seq<char>>)
    requires
        seam_is_clean(a, b),
    ensures
        scan(a + b, 0) == scan(a, 0) + scan(b, 0),
{
    lemma_scan_prefix(a, b, 0);
}

/// A cluster that is neither a digit nor a symbol of the table, such as a
/// space or an unknown character, gives no token and ends no scan: the
/// tokens of the whole are those of what stands before it and then those of
/// what stands after it.
pub proof fn lemma_scan_passes_over(pre: Seq<Seq<char>>, g: Seq<char>, post: Seq<Seq<char>>)
    requires
        !is_digit(g),
        symbol(g) is None,
    ensures
        scan(pre + seq![g] + post, 0) == scan(pre, 0) + scan(post, 0),
{
    let one = seq![g];
    lemma_scan_concat(pre + one, post);
    lemma_scan_concat(pre, one);
    assert(scan(one, 0) =~= Seq::<TokenView>::empty()) by {
        reveal_with_fuel(scan, 2);
    }
}

/// [`unknown`] as a predicate on clusters.
pub open spec fn unknown_cluster() -> spec_fn(Seq<char>) -> bool {
    |g: Seq<char>| unknown(g)
}

/// The clusters from index `i` on that the scan reports as unknown, in order.
pub open spec fn unknown_from(gs: Seq<Seq<char>>, i: int) -> Seq<Seq<char>> {
    if 0 <= i <= gs.len() {
        gs.skip(i).filter(unknown_cluster())
    } else {
        Seq::empty()
    }
}

/// The unknown clusters from `i` on are the cluster at `i`, where it is
/// unknown, and then those from `i + 1` on.
proof fn lemma_unknown_step(gs: Seq<Seq<char>>, i: int)
    requires
        0 <= i < gs.len(),
    ensures
        unknown_from(gs, i) == if unknown(gs[i]) {
            seq![gs[i]] + unknown_from(gs, i + 1)
        } else {
            unknown_from(gs, i + 1)
        },
{
    let one = seq![gs[i]];
    let rest = gs.skip(i + 1);
    assert(gs.skip(i) =~= one + rest);
    Seq::filter_distributes_over_add(one, rest, unknown_cluster());
    assert(one.filter(unknown_cluster()) =~= if unknown(gs[i]) {
        one
    } else {
        Seq::empty()
    }) by {
        reveal_with_fuel(Seq::filter, 2);
    }
    if !unknown(gs[i]) {
        assert(Seq::<Seq<char>>::empty() + rest.filter(unknown_cluster()) =~= rest.filter(
            unknown_cluster(),
        ));
    }
}

/// A run of digits holds no unknown cluster.
proof fn lemma_unknown_run(gs: Seq<Seq<char>>, i: int)
    requires
        0 <= i <= gs.len(),
    ensures
        unknown_from(gs, i) == unknown_from(gs, run_end(gs, i)),
    decreases gs.len() - i,
{
    if i < gs.len() && is_digit(gs[i]) {
        lemma_unknown_step(gs, i);
        lemma_unknown_run(gs, i + 1);
    }
}

/// The extended grapheme clusters of `source`, in source order, each as its
/// sequence of characters.
pub uninterp spec fn graphemes_of(source: Seq<char>) -> Seq<Seq<char>>;

/// Cuts `source` into extended grapheme clusters with
/// `UnicodeSegmentation::graphemes`.
///
/// Not proved: that the slices handed back are the clusters named by
/// [`graphemes_of`].  Nothing more is claimed of them here; how text is cut is
/// left to the segmentation rules of Unicode that the outside crate implements.
#[verifier::external_body]
fn split_graphemes<'a>(source: &'a str) -> (graphemes: Vec<&'a str>)
    ensures
        texts(graphemes@) == graphemes_of(source@),
{
    source.graphemes(true).collect::<Vec<&str>>()
}

/// Whether `string` is a single ASCII digit.
pub fn is_number(string: &str) -> (b: bool)
    ensures
        b == is_digit(string@),
{
    if string.unicode_len() != 1 {
        return false;
    }
    let c = string.get_char(0);
    '0' <= c && c <= '9'
}

/// The token that the character `c` stands for in the symbol table, if any.
pub fn symbol_token(c: char) -> (token: Option<Token>)
    ensures
        match token {
            Some(t) => symbol_of_char(c) == Some(t@),
            None => symbol_of_char(c) is None,
        },
{
    match c {
        '¯' => Some(Token::HighMinus),
        '+' => Some(Token::Operator(Op::Plus)),
        '-' => Some(Token::Operator(Op::Minus)),
        '×' => Some(Token::Operator(Op::Times)),
        '÷' => Some(Token::Operator(Op::Divide)),
        '⌊' => Some(Token::Operator(Op::Floor)),
        '⌈' => Some(Token::Operator(Op::Ceiling)),
        '⊣' => Some(Token::Operator(Op::LeftTack)),
        '⊢' => Some(Token::Operator(Op::RightTack)),
        '/' => Some(Token::Operator(Op::Replicate)),
        '(' => Some(Token::LeftParen),
        ')' => Some(Token::RightParen),
        _ => None,
    }
}

/// Whether the scan passes over `string` as unknown: it is no digit, no
/// symbol of the table and not the space.
pub fn is_unknown(string: &str) -> (b: bool)
    ensures
        b == unknown(string@),
{
    if string.unicode_len() != 1 {
        return true;
    }
    let c = string.get_char(0);
    assert(string@ =~= seq![c]);
    if c == ' ' || ('0' <= c && c <= '9') {
        return false;
    }
    symbol_token(c).is_none()
}

/// A cursor over the grapheme clusters of a source text, and the tokens read
/// so far.
pub struct Scanner<'a> {
    pub index: usize,
    pub graphemes: Vec<&'a str>,
    pub tokens: Vec<Token>,
}

impl<'a> Scanner<'a> {
    /// The clusters of this scanner as character sequences.
    pub open spec fn clusters(&self) -> Seq<Seq<char>> {
        texts(self.graphemes@)
    }

    /// The tokens read so far, as views.
    pub open spec fn read(&self) -> Seq<TokenView> {
        token_views(self.tokens@)
    }

    /// The cluster under the cursor, if the cursor is inside the text.
    pub open spec fn current(&self) -> Option<&'a str> {
        if self.index < self.graphemes.len() {
            Some(self.graphemes@[self.index as int])
        } else {
            None
        }
    }

    /// A scanner at the start of `source`, with no token read.
    pub fn new(source: &'a str) -> (scanner: Self)
        ensures
            scanner.index == 0,
            scanner.tokens@.len() == 0,
            scanner.clusters() == graphemes_of(source@),
    {
        let tokens: Vec<Token> = Vec::new();
        Self { index: 0, graphemes: split_graphemes(source), tokens }
    }

    /// Reads every cluster from the cursor on and appends the tokens they
    /// stand for.  Clusters outside the symbol table are passed over; they
    /// are handed back, in order, for whoever wants to report them.
    pub fn tokenize(&mut self) -> (passed_over: Vec<&'a str>)
        ensures
            final(self).graphemes == old(self).graphemes,
            final(self).index == if old(self).index <= old(self).graphemes.len() {
                old(self).graphemes.len()
            } else {
                old(self).index
            },
            final(self).read() == old(self).read() + scan(
                old(self).clusters(),
                old(self).index as int,
            ),
            texts(passed_over@) == unknown_from(old(self).clusters(), old(self).index as int),
    {
        let ghost gs = self.clusters();
        let ghost before = self.read();
        let ghost start = self.index;
        let mut passed_over: Vec<&'a str> = Vec::new();
        assert(texts(passed_over@) + unknown_from(gs, start as int) =~= unknown_from(
            gs,
            start as int,
        ));
        loop
            invariant
                self.graphemes == old(self).graphemes,
                gs == self.clusters(),
                start <= self.index,
                start <= self.graphemes.len() ==> self.index <= self.graphemes.len(),
                start > self.graphemes.len() ==> self.index == start,
                self.read() + scan(gs, self.index as int) == before + scan(gs, start as int),
                texts(passed_over@) + unknown_from(gs, self.index as int) == unknown_from(
                    gs,
                    start as int,
                ),
            ensures
                self.index >= self.graphemes.len(),
            decreases self.graphemes.len() - self.index,
        {
            let c = match self.current_grapheme() {
                Some(c) => c,
                None => {
                    break ;
                },
            };
            let ghost noted = texts(passed_over@);
            let ghost at = self.index as int;
            if is_number(c) {
                self.consume_number();
                proof {
                    lemma_run_end_bounds(gs, at + 1);
                    lemma_unknown_run(gs, at);
                }
            } else {
                if c.unicode_len() == 1 {
                    let glyph = c.get_char(0);
                    assert(c@ =~= seq![glyph]);
                    match symbol_token(glyph) {
                        Some(token) => self.tokens.push(token),
                        None => {
                            if glyph != ' ' {
                                passed_over.push(c);
                            }
                        },
                    }
                } else {
                    passed_over.push(c);
                }
                self.advance();
                proof {
                    lemma_unknown_step(gs, at);
                    if unknown(gs[at]) {
                        assert(noted.push(gs[at]) + unknown_from(gs, at + 1) =~= noted + (
                        seq![gs[at]] + unknown_from(gs, at + 1)));
                    }
                }
            }
        }
        proof {
            assert(unknown_from(gs, self.index as int) =~= Seq::empty()) by {
                reveal_with_fuel(Seq::filter, 1);
            }
        }
        passed_over
    }

    /// Reads the maximal run of digits at the cursor as one `Number` token.
    fn consume_number(&mut self)
        ensures
            final(self).graphemes == old(self).graphemes,
            final(self).index == run_end(old(self).clusters(), old(self).index as int),
            final(self).read() == old(self).read().push(
                TokenView::Number(
                    run_text(old(self).clusters(), old(self).index as int, final(self).index as int),
                ),
            ),
    {
        let start = self.index;
        let ghost gs = self.clusters();
        loop
            invariant
                self.graphemes == old(self).graphemes,
                self.tokens == old(self).tokens,
                gs == self.clusters(),
                start <= self.index,
                start <= self.graphemes.len() ==> self.index <= self.graphemes.len(),
                run_end(gs, self.index as int) == run_end(gs, start as int),
            ensures
                self.index == run_end(gs, start as int),
            decreases self.graphemes.len() - self.index,
        {
            match self.current_grapheme() {
                Some(g) => {
                    if is_number(g) {
                        self.advance();
                    } else {
                        break ;
                    }
                },
                None => {
                    break ;
                },
            }
        }
        let mut s = String::new();
        let end = self.index;
        for i in start..end
            invariant
                gs == self.clusters(),
                end <= self.graphemes.len() || end == start,
                s@ == run_text(gs, start as int, i as int),
        {
            s.append(self.graphemes[i]);
        }
        let ghost before = self.read();
        self.tokens.push(Token::Number(s));
        proof {
            assert(self.read() =~= before.push(
                TokenView::Number(run_text(gs, start as int, end as int)),
            ));
        }
    }

    /// The cluster under the cursor, if the cursor is inside the text.
    fn current_grapheme(&self) -> (g: Option<&'a str>)
        ensures
            g == self.current(),
    {
        if self.index < self.graphemes.len() {
            Some(self.graphemes[self.index])
        } else {
            None
        }
    }

    /// Moves the cursor one cluster on and hands back the cluster it left.
    fn advance(&mut self) -> (g: Option<&'a str>)
        requires
            old(self).index < usize::MAX,
        ensures
            final(self).graphemes == old(self).graphemes,
            final(self).tokens == old(self).tokens,
            final(self).index == old(self).index + 1,
            g == old(self).current(),
    {
        let grapheme = self.current_grapheme();
        self.index += 1;
        grapheme
    }
}

} // verus!
