use crate::lexer::{
    chars_of, digit_end, digits_val, ident_token_model, is_digit, is_letter, is_ws, kw_lookup,
    letter_end, number_token_model, run_end, skip_ws, spec_next, spec_tokens,
    lemma_digits_val_nonneg, lemma_run_end, lemma_run_end_unique, lemma_spec_next_bounds, Lexer,
};
use crate::token::TokenModel;
use vstd::prelude::*;

verus! {

/// The token sequence of any input is finite and its last element is the one
/// and only `EOF` in it.
pub proof fn lemma_token_stream_terminates(s: Seq<u8>, p: int)
    requires
        0 <= p <= s.len(),
    ensures
        spec_tokens(s, p).len() >= 1,
        spec_tokens(s, p).last() == TokenModel::EOF,
        forall|i: int|
            0 <= i < spec_tokens(s, p).len() - 1 ==> spec_tokens(s, p)[i] != TokenModel::EOF,
    decreases s.len() - p,
{
    lemma_spec_next_bounds(s, p);
    let step = spec_next(s, p);
    if step.0 != TokenModel::EOF {
        lemma_token_stream_terminates(s, step.1);
        let whole = spec_tokens(s, p);
        let rest = spec_tokens(s, step.1);
        assert(whole == seq![step.0] + rest);
        assert(whole.last() == rest.last());
        assert forall|i: int| 0 <= i < whole.len() - 1 implies whole[i] != TokenModel::EOF by {
            if i > 0 {
                assert(whole[i] == rest[i - 1]);
            }
        }
    }
}

/// A maximal letter/underscore run that spells no reserved keyword is
/// scanned as one `IDENT` carrying exactly that run as text.
pub proof fn lemma_ident_run(s: Seq<u8>, p: int, e: int)
    requires
        0 <= p < e <= s.len(),
        forall|j: int| p <= j < e ==> is_letter(#[trigger] s[j]),
        p == 0 || !is_letter(s[p - 1]),
        e == s.len() || !is_letter(s[e]),
        kw_lookup(s.subrange(p, e)) is None,
    ensures
        spec_next(s, p).0 == TokenModel::IDENT(chars_of(s.subrange(p, e))),
        spec_next(s, p).1 == e,
{
    assert(is_letter(s[p]));
    assert(skip_ws(s, p) == p);
    lemma_run_end_unique(s, p, e, |b: u8| is_letter(b));
}

/// A maximal digit run whose base-10 value fits an `i64` is scanned as one
/// `INT` carrying exactly that (non-negative) value.
pub proof fn lemma_digit_run(s: Seq<u8>, p: int, e: int)
    requires
        0 <= p < e <= s.len(),
        forall|j: int| p <= j < e ==> is_digit(#[trigger] s[j]),
        p == 0 || !is_digit(s[p - 1]),
        e == s.len() || !is_digit(s[e]),
        digits_val(s.subrange(p, e)) <= i64::MAX,
    ensures
        spec_next(s, p).0 == TokenModel::INT(digits_val(s.subrange(p, e))),
        spec_next(s, p).1 == e,
        digits_val(s.subrange(p, e)) >= 0,
{
    assert(is_digit(s[p]));
    assert(skip_ws(s, p) == p);
    lemma_run_end_unique(s, p, e, |b: u8| is_digit(b));
    let run = s.subrange(p, e);
    assert(forall|j: int| 0 <= j < run.len() ==> is_digit(#[trigger] run[j]));
    lemma_digits_val_nonneg(run);
}

/// Scanning from `p` is the same as scanning from the first non-whitespace
/// index at or after `p`.
proof fn lemma_tokens_skip(s: Seq<u8>, p: int)
    requires
        0 <= p <= s.len(),
    ensures
        spec_tokens(s, p) == spec_tokens(s, skip_ws(s, p)),
{
    lemma_run_end(s, p, |b: u8| is_ws(b));
    let q = skip_ws(s, p);
    lemma_run_end_unique(s, q, q, |b: u8| is_ws(b));
    assert(spec_next(s, p) == spec_next(s, q));
}

proof fn lemma_run_end_shift(s1: Seq<u8>, p1: int, s2: Seq<u8>, p2: int, pred: spec_fn(u8) -> bool)
    requires
        0 <= p1 <= s1.len(),
        0 <= p2 <= s2.len(),
        s1.len() - p1 == s2.len() - p2,
        forall|j: int| 0 <= j < s1.len() - p1 ==> #[trigger] s1[p1 + j] == s2[p2 + j],
    ensures
        run_end(s1, p1, pred) - p1 == run_end(s2, p2, pred) - p2,
    decreases s1.len() - p1,
{
    if p1 < s1.len() {
        assert(s1[p1 + 0] == s2[p2 + 0]);
        if pred(s1[p1]) {
            assert forall|j: int| 0 <= j < s1.len() - (p1 + 1) implies #[trigger] s1[(p1 + 1) + j] == s2[(p2
                + 1) + j] by {
                assert(s1[p1 + (j + 1)] == s2[p2 + (j + 1)]);
            }
            lemma_run_end_shift(s1, p1 + 1, s2, p2 + 1, pred);
        }
    }
}

/// The token sequence depends only on the bytes at and after the scanning
/// position.
proof fn lemma_tokens_shift(s1: Seq<u8>, p1: int, s2: Seq<u8>, p2: int)
    requires
        0 <= p1 <= s1.len(),
        0 <= p2 <= s2.len(),
        s1.len() - p1 == s2.len() - p2,
        forall|j: int| 0 <= j < s1.len() - p1 ==> #[trigger] s1[p1 + j] == s2[p2 + j],
    ensures
        spec_tokens(s1, p1) == spec_tokens(s2, p2),
    decreases s1.len() - p1,
{
    let wsp = |b: u8| is_ws(b);
    let ltp = |b: u8| is_letter(b);
    let dgp = |b: u8| is_digit(b);
    lemma_run_end_shift(s1, p1, s2, p2, wsp);
    lemma_run_end(s1, p1, wsp);
    lemma_run_end(s2, p2, wsp);
    let q1 = skip_ws(s1, p1);
    let q2 = skip_ws(s2, p2);
    assert forall|j: int| 0 <= j < s1.len() - q1 implies #[trigger] s1[q1 + j] == s2[q2 + j] by {
        assert(s1[p1 + ((q1 - p1) + j)] == s2[p2 + ((q1 - p1) + j)]);
    }
    if q1 >= s1.len() || s1[q1] == 0 {
        if q1 < s1.len() {
            assert(s1[q1 + 0] == s2[q2 + 0]);
        }
        assert(spec_next(s1, p1).0 == TokenModel::EOF);
        assert(spec_next(s2, p2).0 == TokenModel::EOF);
    } else {
        assert(s1[q1 + 0] == s2[q2 + 0]);
        if is_letter(s1[q1]) {
            lemma_run_end_shift(s1, q1, s2, q2, ltp);
            lemma_run_end(s1, q1, ltp);
            let e1 = letter_end(s1, q1);
            let e2 = letter_end(s2, q2);
            assert(e1 > q1) by {
                if e1 == q1 {
                    assert(!is_letter(s1[q1]));
                }
            }
            assert(s1.subrange(q1, e1) =~= s2.subrange(q2, e2)) by {
                assert forall|k: int| 0 <= k < e1 - q1 implies #[trigger] s1.subrange(q1, e1)[k]
                    == s2.subrange(q2, e2)[k] by {
                    assert(s1[q1 + k] == s2[q2 + k]);
                }
            }
            assert(ident_token_model(s1, q1) == ident_token_model(s2, q2));
            assert forall|j: int| 0 <= j < s1.len() - e1 implies #[trigger] s1[e1 + j] == s2[e2 + j] by {
                assert(s1[q1 + ((e1 - q1) + j)] == s2[q2 + ((e1 - q1) + j)]);
            }
            lemma_tokens_shift(s1, e1, s2, e2);
        } else if is_digit(s1[q1]) {
            lemma_run_end_shift(s1, q1, s2, q2, dgp);
            lemma_run_end(s1, q1, dgp);
            let e1 = digit_end(s1, q1);
            let e2 = digit_end(s2, q2);
            assert(e1 > q1) by {
                if e1 == q1 {
                    assert(!is_digit(s1[q1]));
                }
            }
            assert(s1.subrange(q1, e1) =~= s2.subrange(q2, e2)) by {
                assert forall|k: int| 0 <= k < e1 - q1 implies #[trigger] s1.subrange(q1, e1)[k]
                    == s2.subrange(q2, e2)[k] by {
                    assert(s1[q1 + k] == s2[q2 + k]);
                }
            }
            assert(number_token_model(s1, q1) == number_token_model(s2, q2));
            assert forall|j: int| 0 <= j < s1.len() - e1 implies #[trigger] s1[e1 + j] == s2[e2 + j] by {
                assert(s1[q1 + ((e1 - q1) + j)] == s2[q2 + ((e1 - q1) + j)]);
            }
            lemma_tokens_shift(s1, e1, s2, e2);
        } else {
            assert forall|j: int| 0 <= j < s1.len() - (q1 + 1) implies #[trigger] s1[(q1 + 1) + j] == s2[(q2
                + 1) + j] by {
                assert(s1[q1 + (j + 1)] == s2[q2 + (j + 1)]);
            }
            lemma_tokens_shift(s1, q1 + 1, s2, q2 + 1);
        }
    }
}

proof fn lemma_insert_facts(s: Seq<u8>, i: int, w: u8)
    requires
        0 <= i <= s.len(),
    ensures
        s.insert(i, w).len() == s.len() + 1,
        forall|j: int| 0 <= j < i ==> #[trigger] s.insert(i, w)[j] == s[j],
        s.insert(i, w)[i] == w,
        forall|j: int| i < j < s.len() + 1 ==> #[trigger] s.insert(i, w)[j] == s[j - 1],
{
    s.insert_ensures(i, w);
    assert forall|j: int| i < j < s.len() + 1 implies #[trigger] s.insert(i, w)[j] == s[j - 1] by {
        assert(s.insert(i, w)[(j - 1) + 1] == s[j - 1]);
    }
}

proof fn lemma_ws_insert_from(s: Seq<u8>, i: int, w: u8, p: int)
    requires
        0 <= i <= s.len(),
        is_ws(w),
        0 < i < s.len() ==> !(is_letter(s[i - 1]) && is_letter(s[i])),
        0 < i < s.len() ==> !(is_digit(s[i - 1]) && is_digit(s[i])),
        0 <= p <= i,
    ensures
        spec_tokens(s.insert(i, w), p) == spec_tokens(s, p),
    decreases s.len() - p,
{
    let t = s.insert(i, w);
    lemma_insert_facts(s, i, w);
    let wsp = |b: u8| is_ws(b);
    lemma_run_end(s, p, wsp);
    let q = skip_ws(s, p);
    if q >= i {
        // the insertion point lies in (or at the end of) the whitespace that
        // precedes the next token: the skip in the longer text passes it too
        assert forall|j: int| p <= j < q + 1 implies is_ws(#[trigger] t[j]) by {
            if j < i {
                assert(t[j] == s[j]);
            } else if j > i {
                assert(t[j] == s[j - 1]);
            }
        }
        assert(q + 1 < t.len() ==> t[q + 1] == s[q]);
        lemma_run_end_unique(t, p, q + 1, wsp);
        lemma_tokens_skip(t, p);
        assert forall|j: int| 0 <= j < t.len() - (q + 1) implies #[trigger] t[(q + 1) + j] == s[q + j] by {
            assert(t[(q + j) + 1] == s[q + j]);
        }
        lemma_tokens_shift(t, q + 1, s, q);
        lemma_tokens_skip(s, p);
    } else {
        // the next token begins before the insertion point
        assert forall|j: int| p <= j < q implies is_ws(#[trigger] t[j]) by {
            assert(t[j] == s[j]);
        }
        assert(t[q] == s[q]);
        lemma_run_end_unique(t, p, q, wsp);
        if s[q] == 0 {
            assert(spec_next(s, p).0 == TokenModel::EOF);
            assert(spec_next(t, p).0 == TokenModel::EOF);
        } else if is_letter(s[q]) {
            let ltp = |b: u8| is_letter(b);
            lemma_run_end(s, q, ltp);
            let e = letter_end(s, q);
            assert(e > q) by {
                if e == q {
                    assert(!is_letter(s[q]));
                }
            }
            // the run cannot cross the insertion point: that would put letters
            // on both sides of it
            assert(e <= i) by {
                if e > i {
                    assert(is_letter(s[i]));
                    assert(is_letter(s[i - 1]));
                }
            }
            assert forall|j: int| q <= j < e implies ltp(#[trigger] t[j]) by {
                assert(t[j] == s[j]);
            }
            assert(e < t.len() ==> !ltp(t[e])) by {
                if e < i {
                    assert(t[e] == s[e]);
                } else {
                    assert(t[e] == w);
                }
            }
            lemma_run_end_unique(t, q, e, ltp);
            assert(t.subrange(q, e) =~= s.subrange(q, e)) by {
                assert forall|k: int| 0 <= k < e - q implies #[trigger] t.subrange(q, e)[k] == s.subrange(
                    q,
                    e,
                )[k] by {
                    assert(t[q + k] == s[q + k]);
                }
            }
            assert(ident_token_model(t, q) == ident_token_model(s, q));
            lemma_ws_insert_from(s, i, w, e);
        } else if is_digit(s[q]) {
            let dgp = |b: u8| is_digit(b);
            lemma_run_end(s, q, dgp);
            let e = digit_end(s, q);
            assert(e > q) by {
                if e == q {
                    assert(!is_digit(s[q]));
                }
            }
            assert(e <= i) by {
                if e > i {
                    assert(is_digit(s[i]));
                    assert(is_digit(s[i - 1]));
                }
            }
            assert forall|j: int| q <= j < e implies dgp(#[trigger] t[j]) by {
                assert(t[j] == s[j]);
            }
            assert(e < t.len() ==> !dgp(t[e])) by {
                if e < i {
                    assert(t[e] == s[e]);
                } else {
                    assert(t[e] == w);
                }
            }
            lemma_run_end_unique(t, q, e, dgp);
            assert(t.subrange(q, e) =~= s.subrange(q, e)) by {
                assert forall|k: int| 0 <= k < e - q implies #[trigger] t.subrange(q, e)[k] == s.subrange(
                    q,
                    e,
                )[k] by {
                    assert(t[q + k] == s[q + k]);
                }
            }
            assert(number_token_model(t, q) == number_token_model(s, q));
            lemma_ws_insert_from(s, i, w, e);
        } else {
            lemma_ws_insert_from(s, i, w, q + 1);
        }
    }
}

/// Inserting one whitespace character anywhere between tokens (that is, not
/// strictly inside a letter/underscore run or a digit run) leaves the token
/// sequence of the input unchanged.
pub proof fn lemma_whitespace_insensitive(s: Seq<u8>, i: int, w: u8)
    requires
        0 <= i <= s.len(),
        is_ws(w),
        0 < i < s.len() ==> !(is_letter(s[i - 1]) && is_letter(s[i])),
        0 < i < s.len() ==> !(is_digit(s[i - 1]) && is_digit(s[i])),
    ensures
        spec_tokens(s.insert(i, w), 0) == spec_tokens(s, 0),
{
    lemma_ws_insert_from(s, i, w, 0);
}

/// Two scanners over equal input text at equal positions yield identical
/// token sequences: scanning is a function of the input alone.
pub proof fn lemma_lexing_deterministic<'a, 'b>(a: Lexer<'a>, b: Lexer<'b>)
    requires
        a.wf(),
        b.wf(),
        a.bytes() == b.bytes(),
        a.pos() == b.pos(),
    ensures
        a.remaining_tokens() == b.remaining_tokens(),
{
}

} // verus!

