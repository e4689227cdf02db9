//! A numeric encoding of sequences of machine words that turns the
//! lexicographic order into the order on integers. It bounds the work of the
//! backtracking search and the number of cycles it can report.
use vstd::prelude::*;

verus! {

/// One more than the largest digit: every `usize` plus one fits below it.
pub open spec fn base() -> int {
    usize::MAX as int + 2
}

/// `base()` raised to `e`.
pub open spec fn power(e: nat) -> int
    decreases e,
{
    if e == 0 {
        1
    } else {
        base() * power((e - 1) as nat)
    }
}

/// Digit `p` of `t`, reading positions past its end as zero.
pub open spec fn digit(t: Seq<int>, p: int) -> int {
    if 0 <= p < t.len() {
        t[p]
    } else {
        0
    }
}

/// Every digit of `t` lies in `0..base()`.
pub open spec fn digits_ok(t: Seq<int>) -> bool {
    forall|i: int| 0 <= i < t.len() ==> 0 <= #[trigger] t[i] < base()
}

/// The positions `p..len` of `t`, read as a number in base `base()`.
pub open spec fn enc(t: Seq<int>, p: nat, len: nat) -> int
    decreases len - p,
{
    if p >= len {
        0
    } else {
        digit(t, p as int) * power((len - 1 - p) as nat) + enc(t, p + 1, len)
    }
}

proof fn lemma_pow_pos(e: nat)
    ensures
        power(e) >= 1,
    decreases e,
{
    if e > 0 {
        lemma_pow_pos((e - 1) as nat);
        let x = power((e - 1) as nat);
        assert(base() * x >= 1) by (nonlinear_arith)
            requires
                base() >= 2,
                x >= 1,
        ;
    }
}

/// An encoding lies in `0..base()^(len - p)`.
pub proof fn lemma_enc_bounds(t: Seq<int>, p: nat, len: nat)
    requires
        digits_ok(t),
        p <= len,
    ensures
        0 <= enc(t, p, len) < power((len - p) as nat),
    decreases len - p,
{
    if p < len {
        lemma_enc_bounds(t, p + 1, len);
        let x = power((len - 1 - p) as nat);
        let d = digit(t, p as int);
        let rest = enc(t, p + 1, len);
        lemma_pow_pos((len - 1 - p) as nat);
        assert(((len - p) - 1) as nat == (len - 1 - p) as nat);
        assert(power((len - p) as nat) == base() * x);
        assert(0 <= d * x + rest < base() * x) by (nonlinear_arith)
            requires
                0 <= d < base(),
                0 <= rest < x,
                x >= 1,
        ;
    }
}

/// Two sequences that agree below `j` and have a smaller digit at `j` in the
/// first encode to a smaller number.
pub proof fn lemma_enc_lex(a: Seq<int>, b: Seq<int>, p: nat, j: nat, len: nat)
    requires
        digits_ok(a),
        digits_ok(b),
        p <= j < len,
        forall|i: int| p <= i < j ==> digit(a, i) == digit(b, i),
        digit(a, j as int) < digit(b, j as int),
    ensures
        enc(a, p, len) < enc(b, p, len),
    decreases j - p,
{
    let x = power((len - 1 - p) as nat);
    if p == j {
        lemma_enc_bounds(a, p + 1, len);
        lemma_enc_bounds(b, p + 1, len);
        assert(((len - (p + 1)) as nat) == (len - 1 - p) as nat);
        let da = digit(a, p as int);
        let db = digit(b, p as int);
        let ra = enc(a, p + 1, len);
        let rb = enc(b, p + 1, len);
        assert(da * x + ra < db * x + rb) by (nonlinear_arith)
            requires
                da < db,
                0 <= ra < x,
                0 <= rb,
        ;
    } else {
        lemma_enc_lex(a, b, p + 1, j, len);
    }
}

/// Sequences of one length with digits below `base()` that agree below `p`
/// and differ somewhere encode to different numbers.
pub proof fn lemma_enc_injective(a: Seq<int>, b: Seq<int>, p: nat, len: nat)
    requires
        digits_ok(a),
        digits_ok(b),
        a.len() == len,
        b.len() == len,
        p <= len,
        forall|i: int| 0 <= i < p ==> a[i] == b[i],
        exists|j: int| p <= j < len && a[j] != b[j],
    ensures
        enc(a, 0, len) != enc(b, 0, len),
    decreases len - p,
{
    if a[p as int] != b[p as int] {
        if a[p as int] < b[p as int] {
            lemma_enc_lex(a, b, 0, p, len);
        } else {
            lemma_enc_lex(b, a, 0, p, len);
        }
    } else {
        lemma_enc_injective(a, b, p + 1, len);
    }
}

/// The digits of a sequence of machine words.
pub open spec fn as_digits(s: Seq<usize>) -> Seq<int> {
    s.map_values(|v: usize| v as int)
}

/// A list of distinct sequences of one length `len` holds at most
/// `base()^len` of them.
pub proof fn lemma_count_bound(list: Seq<Seq<usize>>, len: nat)
    requires
        list.no_duplicates(),
        forall|i: int| 0 <= i < list.len() ==> (#[trigger] list[i]).len() == len,
    ensures
        list.len() <= power(len),
{
    let f = |s: Seq<usize>| enc(as_digits(s), 0, len);
    let x = list.to_set();
    list.unique_seq_to_set();
    assert forall|a: Seq<usize>, b: Seq<usize>|
        x.contains(a) && x.contains(b) && #[trigger] f(a) == #[trigger] f(b) implies a == b by {
        if a != b {
            let da = as_digits(a);
            let db = as_digits(b);
            assert(digits_ok(da));
            assert(digits_ok(db));
            assert(a.len() == len && b.len() == len);
            assert(!(a =~= b));
            let j = choose|j: int| 0 <= j < len && a[j] != b[j];
            assert(da[j] != db[j]);
            lemma_enc_injective(da, db, 0, len);
        }
    }
    let y = x.map(f);
    vstd::set_lib::lemma_map_size(x, y, f);
    lemma_pow_pos(len);
    vstd::set_lib::lemma_int_range(0, power(len));
    assert forall|v: int| y.contains(v) implies vstd::set_lib::set_int_range(0, power(len)).contains(
        v,
    ) by {
        let s = choose|s: Seq<usize>| x.contains(s) && f(s) == v;
        assert(digits_ok(as_digits(s)));
        lemma_enc_bounds(as_digits(s), 0, len);
    }
    vstd::set_lib::lemma_len_subset(y, vstd::set_lib::set_int_range(0, power(len)));
}

} // verus!
