//! A streaming tokenizer and expander for shell-style `${...}` interpolation
//! patterns, with nesting and backslash-style escaping.
//!
//! A [`Tokenizer`] turns a pattern into a sequence of [`Token`]s: literal
//! text, escaped code points, and placeholder keys. [`Tokenizer::expand`]
//! folds the tokens through a caller-supplied resolver to build an output
//! string.

pub mod laws;
pub mod lexer;

use vstd::prelude::*;

use crate::lexer::{key_scan, lemma_key_scan_bounds, open_at, Lexer, LexerRules};

verus! {

/// A single scanned token.
#[derive(Debug, PartialEq)]
pub enum Token<'a> {
    /// The code point that followed the escape byte.
    Escaped(char),
    /// The raw text between a placeholder's delimiters, and whether that text
    /// itself contains a complete nested placeholder opening.
    Key(&'a str, bool),
    /// A run of unescaped text containing no placeholder.
    Literal(&'a str),
}

/// The mathematical shape of a token: its text as a sequence of code points.
pub enum SpecToken {
    Escaped(char),
    Key(Seq<char>, bool),
    Literal(Seq<char>),
}

impl<'a> View for Token<'a> {
    type V = SpecToken;

    open spec fn view(&self) -> SpecToken {
        match self {
            Token::Escaped(c) => SpecToken::Escaped(*c),
            Token::Key(t, nested) => SpecToken::Key(t@, *nested),
            Token::Literal(t) => SpecToken::Literal(t@),
        }
    }
}

/// True when scanning stops at `i`: the escape byte, or a placeholder
/// opening, stands there.
pub open spec fn is_stop(s: Seq<char>, esc: char, i: int) -> bool {
    0 <= i < s.len() && (s[i] == esc || open_at(s, i))
}

/// The position of the first stop at or after `i`, or the end of `s`.
pub open spec fn literal_end(s: Seq<char>, esc: char, i: int) -> int
    decreases s.len() - i,
{
    if i < 0 || i >= s.len() {
        s.len() as int
    } else if s[i] == esc || open_at(s, i) {
        i
    } else {
        literal_end(s, esc, i + 1)
    }
}

/// No stop lies strictly before the reported position, and a stop stands at
/// the reported position unless it is the end of the input.
pub proof fn lemma_literal_end(s: Seq<char>, esc: char, i: int)
    requires
        0 <= i <= s.len(),
    ensures
        i <= literal_end(s, esc, i) <= s.len(),
        forall|j: int| i <= j < literal_end(s, esc, i) ==> !is_stop(s, esc, j),
        literal_end(s, esc, i) < s.len() ==> is_stop(s, esc, literal_end(s, esc, i)),
    decreases s.len() - i,
{
    if i >= s.len() {
    } else if s[i] == esc || open_at(s, i) {
    } else {
        lemma_literal_end(s, esc, i + 1);
    }
}

/// The outcome of one advancement of the scanner.
pub enum SpecStep {
    /// The input is exhausted.
    Done,
    /// A token, the new cursor position, and the new escape-continuation
    /// flag.
    Step(SpecToken, int, bool),
}

/// One advancement of the scanner over pattern `s` with escape byte `esc`,
/// from cursor `pos` with escape continuation `pending`.
pub open spec fn spec_next(s: Seq<char>, esc: char, pos: int, pending: bool) -> SpecStep {
    if pending {
        if pos < s.len() {
            SpecStep::Step(SpecToken::Escaped(s[pos]), pos + 1, false)
        } else {
            SpecStep::Step(SpecToken::Escaped(esc), pos, false)
        }
    } else if pos >= s.len() || pos < 0 {
        SpecStep::Done
    } else {
        let q = literal_end(s, esc, pos);
        if q > pos {
            if q >= s.len() {
                SpecStep::Step(SpecToken::Literal(s.subrange(pos, s.len() as int)), s.len() as int, false)
            } else if s[q] == esc {
                SpecStep::Step(SpecToken::Literal(s.subrange(pos, q)), q + 1, true)
            } else {
                SpecStep::Step(SpecToken::Literal(s.subrange(pos, q)), q, false)
            }
        } else if s[pos] == esc {
            if pos + 1 < s.len() {
                SpecStep::Step(SpecToken::Escaped(s[pos + 1]), pos + 2, false)
            } else {
                SpecStep::Step(SpecToken::Escaped(esc), pos + 1, false)
            }
        } else {
            let space = s.subrange(pos + 2, s.len() as int);
            let sc = key_scan(space, 0, 1, false);
            SpecStep::Step(
                SpecToken::Key(space.subrange(0, sc.0), sc.1),
                pos + 2 + sc.0 + (if sc.2 { 1int } else { 0int }),
                false,
            )
        }
    }
}

/// Each advancement moves the scanner strictly forward: the cursor grows, or
/// it stands still while the escape continuation is discharged.
pub proof fn lemma_spec_next_progress(s: Seq<char>, esc: char, pos: int, pending: bool)
    requires
        0 <= pos <= s.len(),
    ensures
        spec_next(s, esc, pos, pending) matches SpecStep::Step(t, p, pe) ==> pos <= p <= s.len()
            && (p > pos || (pending && !pe)),
{
    if pending {
    } else if pos >= s.len() {
    } else {
        let q = literal_end(s, esc, pos);
        lemma_literal_end(s, esc, pos);
        if q == pos && s[pos] != esc {
            let space = s.subrange(pos + 2, s.len() as int);
            assert(open_at(s, pos));
            lemma_key_scan_bounds(space, 0, 1, false);
        }
    }
}

/// The whole token sequence produced from cursor `pos` with escape
/// continuation `pending`.
pub open spec fn spec_tokens(s: Seq<char>, esc: char, pos: int, pending: bool) -> Seq<SpecToken>
    decreases s.len() - pos, (if pending { 1int } else { 0int })
        via spec_tokens_decreases
{
    match spec_next(s, esc, pos, pending) {
        SpecStep::Done => Seq::empty(),
        SpecStep::Step(t, p, pe) => seq![t] + spec_tokens(s, esc, p, pe),
    }
}

#[via_fn]
proof fn spec_tokens_decreases(s: Seq<char>, esc: char, pos: int, pending: bool) {
    if 0 <= pos <= s.len() {
        lemma_spec_next_progress(s, esc, pos, pending);
    }
}

/// One resolver outcome: some call of `f`, on a buffer holding `pre` and a
/// token shaped as `t`, may leave the buffer holding `post` and return
/// `ret`.
pub open spec fn resolver_emits<'a, E, F: FnMut(String, Token<'a>) -> (String, Result<bool, E>)>(
    f: F,
    pre: Seq<char>,
    t: SpecToken,
    post: Seq<char>,
    ret: Result<bool, E>,
) -> bool {
    exists|buf: String, tok: Token<'a>, out: (String, Result<bool, E>)|
        #[trigger] call_ensures(f, (buf, tok), out) && buf@ == pre && tok@ == t && out.0@ == post
            && out.1 == ret
}

/// The fold the expansion driver performs: starting from a buffer holding
/// `acc`, feeding `f` the tokens of `toks` in order can end in `r` — the
/// buffer's final text on success, the resolver's error otherwise. The fold
/// stops at the first `Ok(false)` or `Err`, and otherwise consumes every
/// token.
pub open spec fn expansion_steps<'a, E, F: FnMut(String, Token<'a>) -> (String, Result<bool, E>)>(
    f: F,
    toks: Seq<SpecToken>,
    acc: Seq<char>,
    r: Result<Seq<char>, E>,
) -> bool
    decreases toks.len(),
{
    if toks.len() == 0 {
        r == Result::<Seq<char>, E>::Ok(acc)
    } else {
        exists|mid: Seq<char>, ret: Result<bool, E>|
            #[trigger] resolver_emits(f, acc, toks[0], mid, ret) && match ret {
                Result::Ok(cont) => if cont {
                    expansion_steps(f, toks.skip(1), mid, r)
                } else {
                    r == Result::<Seq<char>, E>::Ok(mid)
                },
                Result::Err(e) => r == Result::<Seq<char>, E>::Err(e),
            }
    }
}

/// A concrete resolver call is one of its possible outcomes: what
/// `call_ensures` gives of one invocation establishes `resolver_emits`.
pub proof fn lemma_resolver_emits<'a, E, F: FnMut(String, Token<'a>) -> (String, Result<bool, E>)>(
    f: F,
    buf: String,
    tok: Token<'a>,
    out: (String, Result<bool, E>),
)
    requires
        call_ensures(f, (buf, tok), out),
    ensures
        resolver_emits(f, buf@, tok@, out.0@, out.1),
{
}

/// Rolls the expansion fold up by one resolver call: one outcome of `f` on
/// the first token, continued by a fold over the remaining tokens, is a
/// fold over all of them.
pub proof fn lemma_expansion_steps_unfold<
    'a,
    E,
    F: FnMut(String, Token<'a>) -> (String, Result<bool, E>),
>(
    f: F,
    toks: Seq<SpecToken>,
    acc: Seq<char>,
    mid: Seq<char>,
    ret: Result<bool, E>,
    r: Result<Seq<char>, E>,
)
    requires
        toks.len() > 0,
        resolver_emits(f, acc, toks[0], mid, ret),
        match ret {
            Result::Ok(cont) => if cont {
                expansion_steps(f, toks.skip(1), mid, r)
            } else {
                r == Result::<Seq<char>, E>::Ok(mid)
            },
            Result::Err(e) => r == Result::<Seq<char>, E>::Err(e),
        },
    ensures
        expansion_steps(f, toks, acc, r),
{
}

/// Takes the expansion fold apart at its first token: recovers one resolver
/// outcome on it — the buffer it left and the value it returned — that the
/// rest of the fold continues from.
pub proof fn lemma_expansion_steps_head<
    'a,
    E,
    F: FnMut(String, Token<'a>) -> (String, Result<bool, E>),
>(f: F, toks: Seq<SpecToken>, acc: Seq<char>, r: Result<Seq<char>, E>) -> (w: (
    Seq<char>,
    Result<bool, E>,
))
    requires
        toks.len() > 0,
        expansion_steps(f, toks, acc, r),
    ensures
        resolver_emits(f, acc, toks[0], w.0, w.1),
        match w.1 {
            Result::Ok(cont) => if cont {
                expansion_steps(f, toks.skip(1), w.0, r)
            } else {
                r == Result::<Seq<char>, E>::Ok(w.0)
            },
            Result::Err(e) => r == Result::<Seq<char>, E>::Err(e),
        },
{
    choose|mid: Seq<char>, ret: Result<bool, E>|
        #[trigger] resolver_emits(f, acc, toks[0], mid, ret) && match ret {
            Result::Ok(cont) => if cont {
                expansion_steps(f, toks.skip(1), mid, r)
            } else {
                r == Result::<Seq<char>, E>::Ok(mid)
            },
            Result::Err(e) => r == Result::<Seq<char>, E>::Err(e),
        }
}

/// Simple, efficient shell-like string tokenizer, and expander.
#[derive(Debug, Clone, Copy)]
pub struct Tokenizer<'a> {
    data: &'a str,
    length: usize,
    read: usize,
    pending: bool,
    escape: u8,
}

/// Expansion and introspection for a tokenizer.
pub trait TokenizerExt<'a>: Sized {
    /// The pattern under scan, as a sequence of code points.
    spec fn pattern(&self) -> Seq<char>;

    /// Code points consumed so far.
    spec fn consumed(&self) -> int;

    /// The escape byte in force.
    spec fn escape_byte(&self) -> u8;

    /// Whether the next advancement must first emit the escaped code point.
    spec fn pending_escape(&self) -> bool;

    /// The tokenizer's internal bookkeeping is sound.
    spec fn wf(&self) -> bool;

    /// Retrieve the escape byte being used by the tokenizer.
    fn get_escape(&self) -> (r: u8)
        ensures
            r == self.escape_byte(),
    ;

    /// Define a new escape byte to use instead of the backslash.
    fn set_escape(self, escape: u8) -> (r: Self)
        ensures
            r.escape_byte() == escape,
            r.pattern() == self.pattern(),
            r.consumed() == self.consumed(),
            r.pending_escape() == self.pending_escape(),
            self.wf() ==> r.wf(),
    ;

    /// Whether the pattern is empty: true exactly when it holds no code
    /// point.
    fn is_empty(&self) -> (r: bool)
        requires
            self.wf(),
        ensures
            r == (self.pattern().len() == 0),
    ;

    /// The length of the pattern, in code points.
    fn len(&self) -> (r: usize)
        requires
            self.wf(),
        ensures
            r == self.pattern().len(),
    ;

    /// The number of code points that have been consumed so far.
    fn read(&self) -> (r: usize)
        ensures
            r == self.consumed(),
    ;
}

impl<'a> TokenizerExt<'a> for Tokenizer<'a> {
    closed spec fn pattern(&self) -> Seq<char> {
        self.data@
    }

    closed spec fn consumed(&self) -> int {
        self.read as int
    }

    closed spec fn escape_byte(&self) -> u8 {
        self.escape
    }

    closed spec fn pending_escape(&self) -> bool {
        self.pending
    }

    closed spec fn wf(&self) -> bool {
        self.length == self.data@.len() && self.read <= self.length
    }

    fn get_escape(&self) -> (r: u8) {
        self.escape
    }

    fn set_escape(self, escape: u8) -> (r: Self) {
        Tokenizer { escape, ..self }
    }

    fn is_empty(&self) -> (r: bool) {
        self.length == 0
    }

    fn len(&self) -> (r: usize) {
        self.length
    }

    fn read(&self) -> (r: usize) {
        self.read
    }
}

impl<'a> Tokenizer<'a> {
    /// Constructs a new tokenizer over `data`, which uses the backslash as
    /// the default escape byte.
    pub fn new(data: &'a str) -> (t: Tokenizer<'a>)
        ensures
            t.wf(),
            t.pattern() == data@,
            t.consumed() == 0,
            !t.pending_escape(),
            t.escape_byte() == 92u8,
    {
        let length = data.unicode_len();
        Tokenizer { data, length, read: 0, pending: false, escape: 92u8 }
    }

    /// Decodes the code point standing at the cursor as an escaped literal,
    /// or degrades a trailing escape byte to the escape byte itself.
    fn escaped_character(&mut self) -> (t: Token<'a>)
        requires
            old(self).wf(),
        ensures
            final(self).wf(),
            final(self).pattern() == old(self).pattern(),
            final(self).escape_byte() == old(self).escape_byte(),
            final(self).pending_escape() == old(self).pending_escape(),
            if old(self).consumed() < old(self).pattern().len() {
                t@ == SpecToken::Escaped(old(self).pattern()[old(self).consumed()])
                    && final(self).consumed() == old(self).consumed() + 1
            } else {
                t@ == SpecToken::Escaped(old(self).escape_byte() as char)
                    && final(self).consumed() == old(self).consumed()
            },
    {
        if self.read < self.length {
            let c = self.data.get_char(self.read);
            self.read = self.read + 1;
            Token::Escaped(c)
        } else {
            Token::Escaped(self.escape as char)
        }
    }

    /// Produces the next token, or `None` once the pattern is exhausted. The
    /// token and the new scanner state are exactly those of one advancement
    /// step of the scanning rules.
    pub fn next(&mut self) -> (r: Option<Token<'a>>)
        requires
            old(self).wf(),
        ensures
            final(self).wf(),
            final(self).pattern() == old(self).pattern(),
            final(self).escape_byte() == old(self).escape_byte(),
            match spec_next(
                old(self).pattern(),
                old(self).escape_byte() as char,
                old(self).consumed(),
                old(self).pending_escape(),
            ) {
                SpecStep::Done => r is None && final(self).consumed() == old(self).consumed()
                    && final(self).pending_escape() == old(self).pending_escape(),
                SpecStep::Step(t, p, pe) => r matches Some(tok) && tok@ == t
                    && final(self).consumed() == p && final(self).pending_escape() == pe,
            },
    {
        let ghost s = self.data@;
        let ghost escc = self.escape as char;
        if self.pending {
            self.pending = false;
            let t = self.escaped_character();
            return Some(t);
        }
        if self.read >= self.length {
            return None;
        }
        let start = self.read;
        let mut q = start;
        let mut hit_escape = false;
        let mut hit_open = false;
        while q < self.length && !hit_escape && !hit_open
            invariant
                self == old(self),
                self.wf(),
                s == self.data@,
                escc == self.escape as char,
                start <= q <= self.length,
                hit_escape ==> q < self.length && s[q as int] == escc && literal_end(
                    s,
                    escc,
                    start as int,
                ) == q,
                hit_open ==> q < self.length && open_at(s, q as int) && s[q as int] != escc
                    && literal_end(s, escc, start as int) == q,
                !hit_escape && !hit_open ==> literal_end(s, escc, start as int) == literal_end(
                    s,
                    escc,
                    q as int,
                ),
            decreases self.length - q + (if hit_escape || hit_open { 0int } else { 1int }),
        {
            let c = self.data.get_char(q);
            if c == self.escape as char {
                hit_escape = true;
            } else if c == '$' && q + 1 < self.length && self.data.get_char(q + 1) == '{' {
                hit_open = true;
            } else {
                q = q + 1;
            }
        }
        proof {
            lemma_literal_end(s, escc, start as int);
        }
        if q > start {
            let text = self.data.substring_char(start, q);
            if hit_escape {
                self.read = q + 1;
                self.pending = true;
            } else if hit_open {
                self.read = q;
            } else {
                self.read = self.length;
            }
            Some(Token::Literal(text))
        } else if hit_escape {
            self.read = q + 1;
            let t = self.escaped_character();
            Some(t)
        } else {
            self.read = start + 2;
            let rules = LexerRules::default().with_escape(self.escape);
            let space = self.data.substring_char(self.read, self.length);
            let mut lexer = Lexer::new(space, rules);
            let key = lexer.search();
            proof {
                lemma_key_scan_bounds(space@, 0, 1, false);
            }
            self.read = self.read + lexer.read();
            Some(Token::Key(key, lexer.found_nested()))
        }
    }

    /// Abstraction for handling consumption and expansion of tokens.
    ///
    /// Pulls the remaining tokens one at a time and hands each to `map`
    /// together with the output buffer, which `map` extends and returns with
    /// its outcome. `Ok(false)` or `Err(_)` from `map` stops expansion
    /// early; the error propagates.
    pub fn expand<E, F: FnMut(String, Token<'a>) -> (String, Result<bool, E>)>(
        &mut self,
        map: F,
    ) -> (r: Result<String, E>)
        requires
            old(self).wf(),
            forall|args: (String, Token<'a>)| #[trigger] call_requires(map, args),
        ensures
            final(self).wf(),
            final(self).pattern() == old(self).pattern(),
            final(self).escape_byte() == old(self).escape_byte(),
            expansion_steps(
                map,
                spec_tokens(
                    old(self).pattern(),
                    old(self).escape_byte() as char,
                    old(self).consumed(),
                    old(self).pending_escape(),
                ),
                Seq::<char>::empty(),
                match r {
                    Result::Ok(out) => Result::<Seq<char>, E>::Ok(out@),
                    Result::Err(e) => Result::<Seq<char>, E>::Err(e),
                },
            ),
    {
        let ghost s0 = self.data@;
        let ghost esc0 = self.escape;
        let ghost escc = self.escape as char;
        let ghost toks0 = spec_tokens(s0, escc, self.read as int, self.pending);
        let mut resolver = map;
        let mut output = String::new();
        #[verifier::loop_isolation(false)]
        loop
            invariant
                self.wf(),
                self.data@ == s0,
                self.escape == esc0,
                escc == self.escape as char,
                resolver == map,
                forall|args: (String, Token<'a>)| #[trigger] call_requires(map, args),
                forall|rr: Result<Seq<char>, E>|
                    #[trigger] expansion_steps(
                        map,
                        spec_tokens(s0, escc, self.consumed(), self.pending_escape()),
                        output@,
                        rr,
                    ) ==> expansion_steps(map, toks0, Seq::<char>::empty(), rr),
            decreases s0.len() - self.consumed(), (if self.pending_escape() { 1int } else { 0int }),
        {
            let ghost pos_pre = self.consumed();
            let ghost pend_pre = self.pending_escape();
            let ghost rem_pre = spec_tokens(s0, escc, pos_pre, pend_pre);
            proof {
                lemma_spec_next_progress(s0, escc, pos_pre, pend_pre);
            }
            match self.next() {
                None => {
                    proof {
                        assert(rem_pre =~= Seq::<SpecToken>::empty());
                        assert(expansion_steps(
                            map,
                            rem_pre,
                            output@,
                            Result::<Seq<char>, E>::Ok(output@),
                        ));
                    }
                    return Result::Ok(output);
                },
                Some(tok) => {
                    let ghost t = tok@;
                    let ghost rem_post = spec_tokens(s0, escc, self.consumed(), self.pending_escape());
                    let ghost buf_pre = output@;
                    proof {
                        assert(rem_pre == seq![t] + rem_post);
                        assert(rem_pre.skip(1) =~= rem_post);
                        assert(rem_pre[0] == t);
                    }
                    let ghost buf_moved = output;
                    let ghost tok_ghost = tok;
                    let stepped = resolver(output, tok);
                    let ghost stepped_ghost = stepped;
                    output = stepped.0;
                    let res = stepped.1;
                    proof {
                        lemma_resolver_emits(map, buf_moved, tok_ghost, stepped_ghost);
                    }
                    match res {
                        Result::Ok(cont) => {
                            if !cont {
                                proof {
                                    lemma_expansion_steps_unfold(
                                        map,
                                        rem_pre,
                                        buf_pre,
                                        output@,
                                        res,
                                        Result::<Seq<char>, E>::Ok(output@),
                                    );
                                }
                                return Result::Ok(output);
                            }
                            proof {
                                assert forall|rr: Result<Seq<char>, E>|
                                    #[trigger] expansion_steps(
                                        map,
                                        rem_post,
                                        output@,
                                        rr,
                                    ) implies expansion_steps(
                                    map,
                                    toks0,
                                    Seq::<char>::empty(),
                                    rr,
                                ) by {
                                    lemma_expansion_steps_unfold(
                                        map,
                                        rem_pre,
                                        buf_pre,
                                        output@,
                                        res,
                                        rr,
                                    );
                                }
                            }
                        },
                        Result::Err(e) => {
                            proof {
                                lemma_expansion_steps_unfold(
                                    map,
                                    rem_pre,
                                    buf_pre,
                                    output@,
                                    res,
                                    Result::<Seq<char>, E>::Err(e),
                                );
                            }
                            return Result::Err(e);
                        },
                    }
                },
            }
        }
    }
}

} // verus!
