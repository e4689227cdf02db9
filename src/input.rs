//! Reading an arc list from text: one arc per line, written as two
//! unsigned decimal numbers separated by whitespace. Other lines are
//! skipped.
use vstd::prelude::*;
use vstd::string::StringSliceAdditionalSpecFns;

verus! {

/// ASCII whitespace, which separates numbers.
pub open spec fn is_space(b: u8) -> bool {
    b == 32u8 || b == 9u8 || b == 10u8 || b == 12u8 || b == 13u8
}

/// The value of a string of decimal digits.
pub open spec fn digits_value(d: Seq<u8>) -> nat
    decreases d.len(),
{
    if d.len() == 0 {
        0
    } else {
        digits_value(d.drop_last()) * 10 + (d.last() - 48u8) as nat
    }
}

/// Every byte of `d` is a decimal digit.
pub open spec fn all_digits(d: Seq<u8>) -> bool {
    forall|i: int| 0 <= i < d.len() ==> 48u8 <= #[trigger] d[i] <= 57u8
}

/// A token without its leading `+`, if it has one.
pub open spec fn unsigned_part(t: Seq<u8>) -> Seq<u8> {
    if t.len() > 0 && t[0] == 43u8 {
        t.drop_first()
    } else {
        t
    }
}

/// The number a token spells: an optional `+`, then at least one decimal
/// digit, with a value that fits a `usize`.
pub open spec fn number(t: Seq<u8>) -> Option<usize> {
    let d = unsigned_part(t);
    if d.len() > 0 && all_digits(d) && digits_value(d) <= usize::MAX {
        Some(digits_value(d) as usize)
    } else {
        None
    }
}

/// The arcs read so far, the complete tokens of the current line and the
/// token being read.
pub struct Reading {
    pub arcs: Seq<(usize, usize)>,
    pub tokens: Seq<Seq<u8>>,
    pub token: Seq<u8>,
}

/// The tokens with the token being read closed.
pub open spec fn close_token(tokens: Seq<Seq<u8>>, token: Seq<u8>) -> Seq<Seq<u8>> {
    if token.len() > 0 {
        tokens.push(token)
    } else {
        tokens
    }
}

/// The arcs with the line of these tokens closed: it adds an arc when it
/// holds exactly two numbers.
pub open spec fn close_line(arcs: Seq<(usize, usize)>, tokens: Seq<Seq<u8>>) -> Seq<(usize, usize)> {
    if tokens.len() == 2 && number(tokens[0]) is Some && number(tokens[1]) is Some {
        arcs.push((number(tokens[0])->0, number(tokens[1])->0))
    } else {
        arcs
    }
}

/// The reading state after the bytes `s`.
pub open spec fn reading(s: Seq<u8>) -> Reading
    decreases s.len(),
{
    if s.len() == 0 {
        Reading { arcs: Seq::empty(), tokens: Seq::empty(), token: Seq::empty() }
    } else {
        let r = reading(s.drop_last());
        let b = s.last();
        if b == 10u8 {
            Reading {
                arcs: close_line(r.arcs, close_token(r.tokens, r.token)),
                tokens: Seq::empty(),
                token: Seq::empty(),
            }
        } else if is_space(b) {
            Reading { arcs: r.arcs, tokens: close_token(r.tokens, r.token), token: Seq::empty() }
        } else {
            Reading { arcs: r.arcs, tokens: r.tokens, token: r.token.push(b) }
        }
    }
}

/// The arcs of a text.
pub open spec fn arcs_of(s: Seq<u8>) -> Seq<(usize, usize)> {
    let r = reading(s);
    close_line(r.arcs, close_token(r.tokens, r.token))
}

proof fn lemma_digits_grow(d: Seq<u8>, k: int)
    requires
        0 <= k <= d.len(),
        forall|i: int| 0 <= i < d.len() ==> 48u8 <= #[trigger] d[i] <= 57u8,
    ensures
        digits_value(d.subrange(0, k)) <= digits_value(d),
    decreases d.len() - k,
{
    if k < d.len() {
        lemma_digits_grow(d, k + 1);
        assert(d.subrange(0, k + 1).drop_last() =~= d.subrange(0, k));
    } else {
        assert(d.subrange(0, k) =~= d);
    }
}

/// The number a token spells, if any.
pub fn parse_number(t: &Vec<u8>) -> (r: Option<usize>)
    ensures
        r == number(t@),
{
    let mut i: usize = 0;
    if t.len() > 0 && t[0] == 43u8 {
        i = 1;
    }
    let ghost d = unsigned_part(t@);
    let start = i;
    if start == t.len() {
        return None;
    }
    let mut value: usize = 0;
    let mut fits = true;
    while i < t.len()
        invariant
            start <= i <= t@.len(),
            start < t@.len(),
            d == t@.subrange(start as int, t@.len() as int),
            d == unsigned_part(t@),
            forall|k: int| start <= k < i ==> 48u8 <= #[trigger] t@[k] <= 57u8,
            fits ==> value == digits_value(t@.subrange(start as int, i as int)),
            !fits ==> digits_value(t@.subrange(start as int, i as int)) > usize::MAX,
        decreases t@.len() - i,
    {
        let b = t[i];
        if b < 48u8 || b > 57u8 {
            proof {
                assert(d[i - start] == b);
                assert(!(48u8 <= d[i - start] <= 57u8));
                assert(0 <= i - start < d.len());
                assert(!all_digits(d));
                assert(number(t@) is None);
            }
            return None;
        }
        let digit = (b - 48u8) as usize;
        let ghost prefix = t@.subrange(start as int, i + 1);
        proof {
            assert(prefix.drop_last() =~= t@.subrange(start as int, i as int));
        }
        if fits {
            if value > (usize::MAX - digit) / 10 {
                fits = false;
                assert(value * 10 + digit > usize::MAX) by (nonlinear_arith)
                    requires
                        value > (usize::MAX - digit) / 10,
                        digit <= 9,
                ;
            } else {
                assert(value * 10 + digit <= usize::MAX) by (nonlinear_arith)
                    requires
                        value <= (usize::MAX - digit) / 10,
                        digit <= 9,
                ;
                value = value * 10 + digit;
            }
        } else {
            assert(digits_value(prefix) >= digits_value(prefix.drop_last())) by (nonlinear_arith)
                requires
                    digits_value(prefix) == digits_value(prefix.drop_last()) * 10 + (prefix.last()
                        - 48u8) as nat,
            ;
        }
        i = i + 1;
    }
    proof {
        assert(t@.subrange(start as int, t@.len() as int) == d);
    }
    if fits {
        Some(value)
    } else {
        None
    }
}

/// Adds `token` to `tokens` unless it is empty.
fn close_token_into(tokens: &mut Vec<Vec<u8>>, token: Vec<u8>)
    ensures
        final(tokens).deep_view() == close_token(old(tokens).deep_view(), token@),
{
    if token.len() > 0 {
        let ghost before = tokens.deep_view();
        let ghost prev = tokens@;
        tokens.push(token);
        proof {
            assert forall|i: int| 0 <= i < tokens@.len() implies tokens.deep_view()[i]
                =~= before.push(token@)[i] by {
                if i < prev.len() {
                    assert(tokens@[i] == prev[i]);
                }
            }
            assert(tokens.deep_view() =~= before.push(token@));
        }
    }
}

/// Adds the arc of a line to `arcs` when its tokens are exactly two
/// numbers.
fn close_line_into(arcs: &mut Vec<(usize, usize)>, tokens: &Vec<Vec<u8>>)
    ensures
        final(arcs)@ == close_line(old(arcs)@, tokens.deep_view()),
{
    if tokens.len() == 2 {
        proof {
            assert(tokens.deep_view()[0] =~= tokens@[0]@);
            assert(tokens.deep_view()[1] =~= tokens@[1]@);
        }
        let first = parse_number(&tokens[0]);
        let second = parse_number(&tokens[1]);
        if let (Some(a), Some(b)) = (first, second) {
            arcs.push((a, b));
        }
    }
}

/// Reads the arcs of a text: every line that holds exactly two numbers
/// gives one arc, in order; other lines are skipped.
pub fn parse_input(input: &str) -> (r: Vec<(usize, usize)>)
    ensures
        r@ == arcs_of(input.spec_bytes()),
{
    let bytes = input.as_bytes();
    let mut arcs: Vec<(usize, usize)> = Vec::new();
    let mut tokens: Vec<Vec<u8>> = Vec::new();
    let mut token: Vec<u8> = Vec::new();
    let mut i: usize = 0;
    proof {
        assert(bytes@.subrange(0, 0) =~= Seq::<u8>::empty());
        assert(tokens.deep_view() =~= Seq::<Seq<u8>>::empty());
    }
    while i < bytes.len()
        invariant
            i <= bytes@.len(),
            reading(bytes@.subrange(0, i as int)) == (Reading {
                arcs: arcs@,
                tokens: tokens.deep_view(),
                token: token@,
            }),
        decreases bytes@.len() - i,
    {
        let b = bytes[i];
        proof {
            assert(bytes@.subrange(0, i + 1).drop_last() =~= bytes@.subrange(0, i as int));
        }
        if b == 10u8 {
            close_token_into(&mut tokens, token);
            close_line_into(&mut arcs, &tokens);
            tokens = Vec::new();
            token = Vec::new();
            proof {
                assert(tokens.deep_view() =~= Seq::<Seq<u8>>::empty());
            }
        } else if b == 32u8 || b == 9u8 || b == 12u8 || b == 13u8 {
            close_token_into(&mut tokens, token);
            token = Vec::new();
        } else {
            token.push(b);
        }
        i = i + 1;
    }
    close_token_into(&mut tokens, token);
    close_line_into(&mut arcs, &tokens);
    proof {
        assert(bytes@.subrange(0, bytes@.len() as int) =~= bytes@);
    }
    arcs
}

} // verus!
