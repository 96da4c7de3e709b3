//! Laws of the token stream: what the sequence of tokens as a whole
//! guarantees about the pattern it came from.

use vstd::prelude::*;
use vstd::assert_seqs_equal;

use crate::lexer::{
    contains_open, key_scan, lemma_has_nested_iff_contains_open, lemma_key_scan_bounds, open_at,
};
use crate::{
    is_stop, lemma_literal_end, lemma_spec_next_progress, literal_end, spec_next, spec_tokens,
    SpecStep, SpecToken,
};

verus! {

/// The text a token stands for in the pattern: the escape byte with its
/// decoded code point for an escaped token, the delimiters around the raw
/// text for a key, the text itself for a literal.
pub open spec fn token_text(esc: char, t: SpecToken) -> Seq<char> {
    match t {
        SpecToken::Escaped(c) => seq![esc, c],
        SpecToken::Key(text, _) => seq!['$', '{'] + text + seq!['}'],
        SpecToken::Literal(text) => text,
    }
}

/// The concatenated text of a token sequence.
pub open spec fn tokens_text(esc: char, toks: Seq<SpecToken>) -> Seq<char>
    decreases toks.len(),
{
    if toks.len() == 0 {
        Seq::empty()
    } else {
        token_text(esc, toks[0]) + tokens_text(esc, toks.skip(1))
    }
}

/// True when one advancement from this state meets neither of the two
/// degraded endings: a trailing escape byte with no code point after it, and
/// a placeholder that never closes.
pub open spec fn step_exact(s: Seq<char>, esc: char, pos: int, pending: bool) -> bool {
    if pending {
        pos < s.len()
    } else if pos >= s.len() || pos < 0 {
        true
    } else {
        let q = literal_end(s, esc, pos);
        if q == pos {
            if s[pos] == esc {
                pos + 1 < s.len()
            } else {
                key_scan(s.subrange(pos + 2, s.len() as int), 0, 1, false).2
            }
        } else {
            true
        }
    }
}

/// True when no advancement of the whole scan, from this state on, meets a
/// trailing escape byte or an unterminated placeholder.
pub open spec fn exact_scan(s: Seq<char>, esc: char, pos: int, pending: bool) -> bool
    decreases s.len() - pos, (if pending { 1int } else { 0int })
        via exact_scan_decreases
{
    step_exact(s, esc, pos, pending) && match spec_next(s, esc, pos, pending) {
        SpecStep::Done => true,
        SpecStep::Step(t, p, pe) => exact_scan(s, esc, p, pe),
    }
}

#[via_fn]
proof fn exact_scan_decreases(s: Seq<char>, esc: char, pos: int, pending: bool) {
    if 0 <= pos <= s.len() {
        lemma_spec_next_progress(s, esc, pos, pending);
    }
}

/// What the degraded endings add beyond the pattern's own text: the written
/// form of a trailing escape byte carries that byte twice, and an
/// unterminated placeholder's key is written with a close byte it never had.
/// A scan meets at most one degraded ending, and only as its final step, so
/// the excess is empty, the escape byte alone, or the close byte alone.
pub open spec fn scan_excess(s: Seq<char>, esc: char, pos: int, pending: bool) -> Seq<char>
    decreases s.len() - pos, (if pending { 1int } else { 0int })
        via scan_excess_decreases
{
    match spec_next(s, esc, pos, pending) {
        SpecStep::Done => Seq::empty(),
        SpecStep::Step(t, p, pe) => if step_exact(s, esc, pos, pending) {
            scan_excess(s, esc, p, pe)
        } else {
            match t {
                SpecToken::Escaped(_) => seq![esc],
                SpecToken::Key(_, _) => seq!['}'],
                // a literal step is never degraded
                SpecToken::Literal(_) => Seq::empty(),
            }
        },
    }
}

#[via_fn]
proof fn scan_excess_decreases(s: Seq<char>, esc: char, pos: int, pending: bool) {
    if 0 <= pos <= s.len() {
        lemma_spec_next_progress(s, esc, pos, pending);
    }
}

/// An exact scan has no excess.
pub proof fn lemma_exact_scan_no_excess(s: Seq<char>, esc: char, pos: int, pending: bool)
    requires
        0 <= pos <= s.len(),
        exact_scan(s, esc, pos, pending),
    ensures
        scan_excess(s, esc, pos, pending) == Seq::<char>::empty(),
    decreases s.len() - pos, (if pending { 1int } else { 0int }),
{
    match spec_next(s, esc, pos, pending) {
        SpecStep::Done => {
        },
        SpecStep::Step(t, p, pe) => {
            lemma_spec_next_progress(s, esc, pos, pending);
            lemma_exact_scan_no_excess(s, esc, p, pe);
        },
    }
}

/// Concatenating the text of the tokens produced from a state reconstructs
/// the unread rest of the pattern — a pending escape re-contributes the
/// already consumed escape byte — followed by whatever excess the scan's
/// degraded endings add.
pub proof fn lemma_reconstruct(s: Seq<char>, esc: char, pos: int, pending: bool)
    requires
        0 <= pos <= s.len(),
    ensures
        tokens_text(esc, spec_tokens(s, esc, pos, pending)) == (if pending {
            seq![esc] + s.subrange(pos, s.len() as int)
        } else {
            s.subrange(pos, s.len() as int)
        }) + scan_excess(s, esc, pos, pending),
    decreases s.len() - pos, (if pending { 1int } else { 0int }),
{
    let len = s.len() as int;
    let toks = spec_tokens(s, esc, pos, pending);
    let excess = scan_excess(s, esc, pos, pending);
    match spec_next(s, esc, pos, pending) {
        SpecStep::Done => {
            assert(pos == len);
            assert(s.subrange(pos, len) + excess =~= Seq::<char>::empty());
        },
        SpecStep::Step(t, p, pe) => {
            lemma_spec_next_progress(s, esc, pos, pending);
            lemma_reconstruct(s, esc, p, pe);
            let rest = spec_tokens(s, esc, p, pe);
            let core_pre = if pending {
                seq![esc] + s.subrange(pos, len)
            } else {
                s.subrange(pos, len)
            };
            let core_post = if pe {
                seq![esc] + s.subrange(p, len)
            } else {
                s.subrange(p, len)
            };
            let tail = scan_excess(s, esc, p, pe);
            assert(toks == seq![t] + rest);
            assert(toks[0] == t);
            assert(toks.skip(1) =~= rest);
            assert(tokens_text(esc, toks) == token_text(esc, t) + tokens_text(esc, rest));
            assert(tokens_text(esc, rest) == core_post + tail);
            if pending {
                if pos < len {
                    assert_seqs_equal!(
                        seq![esc, s[pos]] + s.subrange(pos + 1, len)
                            == seq![esc] + s.subrange(pos, len),
                        i => {
                            if i >= 2 {
                                assert(s.subrange(pos + 1, len)[i - 2] == s[pos + i - 1]);
                            }
                        }
                    );
                } else {
                    assert(spec_tokens(s, esc, p, pe) =~= Seq::<SpecToken>::empty());
                    assert(s.subrange(pos, len) =~= Seq::<char>::empty());
                    assert(excess == seq![esc]);
                    assert(tokens_text(esc, toks) =~= core_pre + excess);
                }
            } else {
                let q = literal_end(s, esc, pos);
                lemma_literal_end(s, esc, pos);
                if q > pos {
                    if q >= len || s[q] != esc {
                        assert_seqs_equal!(
                            s.subrange(pos, q) + s.subrange(q, len) == s.subrange(pos, len)
                        );
                    } else {
                        assert_seqs_equal!(
                            s.subrange(pos, q) + (seq![esc] + s.subrange(q + 1, len))
                                == s.subrange(pos, len),
                            i => {
                                if i == q - pos {
                                    assert(s[q] == esc);
                                } else if i > q - pos {
                                    assert(s.subrange(q + 1, len)[i - (q - pos) - 1]
                                        == s[pos + i]);
                                }
                            }
                        );
                    }
                } else if s[pos] == esc {
                    if pos + 1 < len {
                        assert_seqs_equal!(
                            seq![esc, s[pos + 1]] + s.subrange(pos + 2, len)
                                == s.subrange(pos, len),
                            i => {
                                if i == 0 {
                                    assert(s[pos] == esc);
                                } else if i >= 2 {
                                    assert(s.subrange(pos + 2, len)[i - 2] == s[pos + i]);
                                }
                            }
                        );
                    } else {
                        assert(spec_tokens(s, esc, p, pe) =~= Seq::<SpecToken>::empty());
                        assert(s.subrange(pos, len) =~= seq![esc]);
                        assert(excess == seq![esc]);
                        assert(tokens_text(esc, toks) =~= core_pre + excess);
                    }
                } else {
                    let space = s.subrange(pos + 2, len);
                    let sc = key_scan(space, 0, 1, false);
                    let k = sc.0;
                    lemma_key_scan_bounds(space, 0, 1, false);
                    assert(open_at(s, pos));
                    assert(token_text(esc, t) == seq!['$', '{'] + space.subrange(0, k) + seq!['}']);
                    if sc.2 {
                        assert(space[k] == '}');
                        assert(s[pos + 2 + k] == '}');
                        assert(p == pos + 3 + k);
                        assert_seqs_equal!(
                            (seq!['$', '{'] + space.subrange(0, k) + seq!['}'])
                                + s.subrange(p, len) == s.subrange(pos, len),
                            i => {
                                if 2 <= i && i < 2 + k {
                                    assert(space.subrange(0, k)[i - 2] == s[pos + i]);
                                } else if i == 2 + k {
                                    assert(s[pos + 2 + k] == '}');
                                } else if i > 2 + k {
                                    assert(s.subrange(p, len)[i - 3 - k] == s[pos + i]);
                                }
                            }
                        );
                    } else {
                        assert(k == space.len());
                        assert(p == len);
                        assert(spec_tokens(s, esc, p, pe) =~= Seq::<SpecToken>::empty());
                        assert(excess == seq!['}']);
                        assert_seqs_equal!(
                            (seq!['$', '{'] + space.subrange(0, k) + seq!['}'])
                                == s.subrange(pos, len) + seq!['}'],
                            i => {
                                if 2 <= i && i < 2 + k {
                                    assert(space.subrange(0, k)[i - 2] == s[pos + i]);
                                }
                            }
                        );
                        assert(tokens_text(esc, toks) =~= core_pre + excess);
                    }
                }
            }
            if step_exact(s, esc, pos, pending) {
                assert(excess == tail);
                assert(token_text(esc, t) + (core_post + tail) =~= (token_text(esc, t)
                    + core_post) + tail);
                assert((token_text(esc, t) + core_post) + tail =~= core_pre + excess);
            }
        },
    }
}

/// Law: for every pattern, concatenating the text of all emitted tokens —
/// an escaped token contributes the escape byte with its decoded code
/// point, a key its delimiters with its raw text — reconstructs the pattern
/// followed by the scan's excess: nothing when the scan is exact, one extra
/// escape byte when the pattern ends in a trailing escape, one extra close
/// byte when a placeholder never closes.
pub proof fn lemma_tokens_reconstruct_any_pattern(s: Seq<char>, esc: char)
    ensures
        tokens_text(esc, spec_tokens(s, esc, 0, false)) == s + scan_excess(s, esc, 0, false),
{
    lemma_reconstruct(s, esc, 0, false);
    assert(s.subrange(0, s.len() as int) =~= s);
}

/// Law: concatenating the text of all emitted tokens reconstructs the
/// pattern exactly — no code point gained or lost — for every pattern whose
/// scan meets no trailing escape byte and no unterminated placeholder.
pub proof fn lemma_tokens_reconstruct_pattern(s: Seq<char>, esc: char)
    requires
        exact_scan(s, esc, 0, false),
    ensures
        tokens_text(esc, spec_tokens(s, esc, 0, false)) == s,
{
    lemma_tokens_reconstruct_any_pattern(s, esc);
    lemma_exact_scan_no_excess(s, esc, 0, false);
    assert(s + Seq::<char>::empty() =~= s);
}

/// Law: a pattern holding neither the escape byte nor a dollar sign scans to
/// exactly one literal token carrying the whole pattern, or to no token at
/// all when the pattern is empty.
pub proof fn lemma_plain_pattern(s: Seq<char>, esc: char)
    requires
        forall|i: int| 0 <= i < s.len() ==> s[i] != esc && s[i] != '$',
    ensures
        s.len() == 0 ==> spec_tokens(s, esc, 0, false) == Seq::<SpecToken>::empty(),
        s.len() > 0 ==> spec_tokens(s, esc, 0, false) == seq![SpecToken::Literal(s)],
{
    let len = s.len() as int;
    lemma_literal_end(s, esc, 0);
    if s.len() > 0 {
        let q = literal_end(s, esc, 0);
        assert(q == len) by {
            if q < len {
                assert(is_stop(s, esc, q));
            }
        }
        assert(s.subrange(0, len) =~= s);
        assert(spec_tokens(s, esc, len, false) =~= Seq::<SpecToken>::empty());
        assert(spec_tokens(s, esc, 0, false) =~= seq![SpecToken::Literal(s)]);
    }
}

/// Law: re-tokenizing the one-code-point text that resolving an escaped
/// token produces never reinterprets it as a placeholder: it comes back as a
/// lone literal, or as the escape byte's own escaped form, never as a key.
pub proof fn lemma_escaped_output_inert(esc: char, c: char)
    ensures
        spec_tokens(seq![c], esc, 0, false) == (if c == esc {
            seq![SpecToken::Escaped(esc)]
        } else {
            seq![SpecToken::Literal(seq![c])]
        }),
{
    let s = seq![c];
    assert(s.len() == 1);
    assert(s[0] == c);
    lemma_literal_end(s, esc, 0);
    if c == esc {
        assert(literal_end(s, esc, 0) == 0);
        assert(spec_tokens(s, esc, 1, false) =~= Seq::<SpecToken>::empty());
        assert(spec_tokens(s, esc, 0, false) =~= seq![SpecToken::Escaped(esc)]);
    } else {
        assert(!is_stop(s, esc, 0));
        assert(literal_end(s, esc, 0) == 1);
        assert(s.subrange(0, 1) =~= s);
        assert(spec_tokens(s, esc, 1, false) =~= Seq::<SpecToken>::empty());
        assert(spec_tokens(s, esc, 0, false) =~= seq![SpecToken::Literal(s)]);
    }
}

/// Law: a key token's nesting flag is true if and only if the raw text it
/// carries contains at least one complete `${` opening sequence.
pub proof fn lemma_key_nested_flag_exact(s: Seq<char>, esc: char, pos: int, pending: bool)
    requires
        0 <= pos <= s.len(),
    ensures
        match spec_next(s, esc, pos, pending) {
            SpecStep::Done => true,
            SpecStep::Step(t, p, pe) => match t {
                SpecToken::Key(text, nested) => nested <==> contains_open(text),
                _ => true,
            },
        },
{
    if !pending && 0 <= pos < s.len() {
        lemma_literal_end(s, esc, pos);
        let q = literal_end(s, esc, pos);
        if q == pos && s[pos] != esc {
            assert(open_at(s, pos));
            lemma_has_nested_iff_contains_open(s.subrange(pos + 2, s.len() as int));
        }
    }
}

/// Law: emitting a key token leaves no residual scanning state behind: the
/// escape continuation comes out clear, the cursor stands past the key's
/// whole span, and the advancement that follows starts outside any
/// placeholder, depending on the cursor alone.
pub proof fn lemma_key_resets_state(s: Seq<char>, esc: char, pos: int, pending: bool)
    requires
        0 <= pos <= s.len(),
        spec_next(s, esc, pos, pending) matches SpecStep::Step(t, p, pe) && t is Key,
    ensures
        spec_next(s, esc, pos, pending) matches SpecStep::Step(t, p, pe) ==> !pe && pos + 2 <= p
            <= s.len(),
{
    lemma_spec_next_progress(s, esc, pos, pending);
    if !pending && 0 <= pos < s.len() {
        lemma_literal_end(s, esc, pos);
        let q = literal_end(s, esc, pos);
        if q == pos && s[pos] != esc {
            assert(open_at(s, pos));
            lemma_key_scan_bounds(s.subrange(pos + 2, s.len() as int), 0, 1, false);
        }
    }
}

} // verus!
