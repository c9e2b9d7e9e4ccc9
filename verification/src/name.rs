use vstd::arithmetic::div_mod::lemma_fundamental_div_mod;
use vstd::prelude::*;
use vstd::string::StringExecFns;

verus! {

/// The character that stands for one decimal digit.
pub open spec fn digit_char(d: nat) -> char {
    if d == 0 {
        '0'
    } else if d == 1 {
        '1'
    } else if d == 2 {
        '2'
    } else if d == 3 {
        '3'
    } else if d == 4 {
        '4'
    } else if d == 5 {
        '5'
    } else if d == 6 {
        '6'
    } else if d == 7 {
        '7'
    } else if d == 8 {
        '8'
    } else {
        '9'
    }
}

/// The digit a character stands for; only digit characters matter here.
pub open spec fn char_digit(c: char) -> nat {
    if c == '0' {
        0
    } else if c == '1' {
        1
    } else if c == '2' {
        2
    } else if c == '3' {
        3
    } else if c == '4' {
        4
    } else if c == '5' {
        5
    } else if c == '6' {
        6
    } else if c == '7' {
        7
    } else if c == '8' {
        8
    } else {
        9
    }
}

/// The decimal rendering of `n`, most significant digit first, with no
/// leading zero (zero itself renders as a single `'0'`).
pub open spec fn dec_str(n: nat) -> Seq<char>
    decreases n,
    via dec_str_decreases
{
    if n < 10 {
        seq![digit_char(n)]
    } else {
        dec_str(n / 10) + seq![digit_char(n % 10)]
    }
}

#[via_fn]
proof fn dec_str_decreases(n: nat) {
    assert(n >= 10 ==> n / 10 < n) by (nonlinear_arith);
}

/// The number a digit sequence stands for, read as decimal.
pub open spec fn dec_val(s: Seq<char>) -> nat
    decreases s.len(),
{
    if s.len() == 0 {
        0
    } else {
        dec_val(s.drop_last()) * 10 + char_digit(s.last())
    }
}

/// Reading a rendered number back gives the number: rendering loses nothing.
pub proof fn lemma_dec_val_round_trip(n: nat)
    ensures
        dec_val(dec_str(n)) == n,
    decreases n,
{
    if n < 10 {
        assert(dec_str(n) == seq![digit_char(n)]);
        assert(dec_str(n).drop_last() =~= Seq::<char>::empty());
        assert(dec_val(Seq::<char>::empty()) == 0);
        assert(dec_str(n).last() == digit_char(n));
        assert(char_digit(digit_char(n)) == n);
    } else {
        assert(n / 10 < n) by (nonlinear_arith)
            requires
                n >= 10,
        ;
        lemma_dec_val_round_trip(n / 10);
        assert(dec_str(n).drop_last() =~= dec_str(n / 10));
        assert(dec_str(n).last() == digit_char(n % 10));
        lemma_fundamental_div_mod(n as int, 10);
    }
}

/// No two numbers render to the same digit sequence.
pub proof fn lemma_dec_str_injective(a: nat, b: nat)
    requires
        dec_str(a) == dec_str(b),
    ensures
        a == b,
{
    lemma_dec_val_round_trip(a);
    lemma_dec_val_round_trip(b);
}

/// A rendered number is never empty.
pub proof fn lemma_dec_str_len(n: nat)
    ensures
        dec_str(n).len() >= 1,
{
}

/// The name handed out for `base` when `prior` allocations of the same
/// base name have already happened: the base itself the first time, and
/// `<base>.<prior>` afterwards — the suffix goes after any extension.
pub open spec fn allocated_name(base: Seq<char>, prior: nat) -> Seq<char> {
    if prior == 0 {
        base
    } else {
        base + "."@ + dec_str(prior)
    }
}

/// Law: allocation never repeats a name. Two allocations of the same base
/// name at different prior counts yield different names, so allocating a
/// base N times yields N distinct names.
pub proof fn lemma_allocated_names_distinct(base: Seq<char>, c1: nat, c2: nat)
    requires
        c1 != c2,
    ensures
        allocated_name(base, c1) != allocated_name(base, c2),
{
    reveal_strlit(".");
    lemma_dec_str_len(c1);
    lemma_dec_str_len(c2);
    if c1 != 0 && c2 != 0 {
        if allocated_name(base, c1) == allocated_name(base, c2) {
            let k = base.len() + 1;
            assert((base + "."@ + dec_str(c1)).skip(k as int) =~= dec_str(c1));
            assert((base + "."@ + dec_str(c2)).skip(k as int) =~= dec_str(c2));
            lemma_dec_str_injective(c1, c2);
        }
    }
}

/// How often `b` occurs among the first `k` of the base names `bs`.
pub open spec fn occurrences_in(bs: Seq<Seq<char>>, b: Seq<char>, k: int) -> nat
    decreases k,
{
    if k <= 0 {
        0
    } else {
        occurrences_in(bs, b, k - 1) + if bs[k - 1] == b {
            1nat
        } else {
            0nat
        }
    }
}

/// The names a fresh allocator hands out for the base names `bs`, in order.
pub open spec fn names_for(bs: Seq<Seq<char>>) -> Seq<Seq<char>> {
    Seq::new(bs.len(), |i: int| allocated_name(bs[i], occurrences_in(bs, bs[i], i)))
}

/// Law: naming is deterministic. Starting from a fresh allocator, after
/// the base names `bs[..k]` have been allocated every prior count equals
/// the base's number of occurrences so far, and `choose_name` steps the
/// counts in exactly this way — one up for the base allocated, the rest
/// untouched. So the k-th name handed out is always `names_for(bs)[k]`, a
/// function of the input sequence alone, whatever the timing.
pub proof fn lemma_naming_deterministic(bs: Seq<Seq<char>>, b: Seq<char>, k: int)
    requires
        0 <= k < bs.len(),
    ensures
        occurrences_in(bs, b, k + 1) == occurrences_in(bs, b, k) + (if b == bs[k] {
            1int
        } else {
            0int
        }),
        names_for(bs)[k] == allocated_name(bs[k], occurrences_in(bs, bs[k], k)),
{
}

/// One decimal digit as text.
fn digit_str(d: u64) -> (r: &'static str)
    requires
        d < 10,
    ensures
        r@ == seq![digit_char(d as nat)],
{
    let r: &'static str = if d == 0 {
        "0"
    } else if d == 1 {
        "1"
    } else if d == 2 {
        "2"
    } else if d == 3 {
        "3"
    } else if d == 4 {
        "4"
    } else if d == 5 {
        "5"
    } else if d == 6 {
        "6"
    } else if d == 7 {
        "7"
    } else if d == 8 {
        "8"
    } else {
        "9"
    };
    proof {
        reveal_strlit("0");
        reveal_strlit("1");
        reveal_strlit("2");
        reveal_strlit("3");
        reveal_strlit("4");
        reveal_strlit("5");
        reveal_strlit("6");
        reveal_strlit("7");
        reveal_strlit("8");
        reveal_strlit("9");
        assert(r@ =~= seq![digit_char(d as nat)]);
    }
    r
}

/// Renders `n` in decimal.
pub fn u64_to_dec(n: u64) -> (r: String)
    ensures
        r@ == dec_str(n as nat),
    decreases n,
{
    if n < 10 {
        let d = digit_str(n);
        d.to_owned()
    } else {
        proof {
            assert(n / 10 < n) by (nonlinear_arith)
                requires
                    n >= 10,
            ;
        }
        let mut s = u64_to_dec(n / 10);
        let d = digit_str(n % 10);
        s.append(d);
        s
    }
}

} // verus!
