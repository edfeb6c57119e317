//! Numbers as text: rendering with zero padding, and reading back.

use vstd::prelude::*;

verus! {

/// The character for one digit, `0` to `9` and then `a` to `f`.
pub open spec fn digit_char(d: nat) -> char {
    if d < 10 {
        (('0' as u32) + d) as char
    } else {
        (('a' as u32) + (d - 10)) as char
    }
}

/// The digits of `n` in `base`, most significant first, without leading zeros.
pub open spec fn digits(n: nat, base: nat) -> Seq<char>
    decreases n,
{
    if base < 2 || n < base {
        seq![digit_char(n)]
    } else {
        proof {
            lemma_quotient_smaller(n, base);
        }
        digits(n / base, base).push(digit_char(n % base))
    }
}

/// Dropping the last digit makes a number smaller.
pub proof fn lemma_quotient_smaller(n: nat, base: nat)
    by (nonlinear_arith)
    requires
        n >= base,
        base >= 2,
    ensures
        n / base < n,
{
}

/// `s` with zeros in front until it is `width` characters long.
pub open spec fn zero_padded(s: Seq<char>, width: nat) -> Seq<char> {
    if s.len() >= width {
        s
    } else {
        Seq::new((width - s.len()) as nat, |i: int| '0') + s
    }
}

/// `n` in `base`, at least `width` characters wide.
pub open spec fn number_text(n: nat, base: nat, width: nat) -> Seq<char> {
    zero_padded(digits(n, base), width)
}

/// The value of one digit in `base`, upper or lower case.
pub open spec fn digit_value(c: char, base: nat) -> Option<nat> {
    let v: int = if '0' <= c && c <= '9' {
        c as u32 - '0' as u32
    } else if 'a' <= c && c <= 'f' {
        c as u32 - 'a' as u32 + 10
    } else if 'A' <= c && c <= 'F' {
        c as u32 - 'A' as u32 + 10
    } else {
        base as int
    };
    if v < base {
        Some(v as nat)
    } else {
        None
    }
}

/// The number that a run of digits spells, or `None` where one is no digit.
pub open spec fn digits_value(s: Seq<char>, base: nat) -> Option<nat>
    decreases s.len(),
{
    if s.len() == 0 {
        Some(0)
    } else {
        match (digits_value(s.drop_last(), base), digit_value(s.last(), base)) {
            (Some(hi), Some(lo)) => Some(hi * base + lo),
            _ => None,
        }
    }
}

/// The unsigned number that `s` spells in `base`: an optional plus sign and at least one
/// digit, and at most `max`.
pub open spec fn parsed_number(s: Seq<char>, base: nat, max: nat) -> Option<nat> {
    let body = if s.len() > 1 && s[0] == '+' {
        s.skip(1)
    } else {
        s
    };
    if body.len() == 0 {
        None
    } else {
        match digits_value(body, base) {
            Some(v) => if v <= max {
                Some(v)
            } else {
                None
            },
            None => None,
        }
    }
}

/// Does `a` come before `b` in a sorted listing?
pub open spec fn sorts_before(a: Seq<char>, b: Seq<char>) -> bool {
    exists|k: int|
        0 <= k <= a.len() && k < b.len() && #[trigger] a.take(k) == b.take(k) && (k == a.len() || a[k]
            < b[k])
}

/// `10` to the power `w`.
pub open spec fn ten_to(w: nat) -> nat
    decreases w,
{
    if w == 0 {
        1
    } else {
        10 * ten_to((w - 1) as nat)
    }
}

proof fn lemma_padded_step(n: nat, w: nat)
    requires
        w >= 1,
        n < ten_to(w),
    ensures
        w > 1 ==> number_text(n, 10, w) == number_text(n / 10, 10, (w - 1) as nat).push(
            digit_char(n % 10),
        ),
        number_text(n, 10, w).len() == w,
    decreases w,
{
    if w == 1 {
        assert(ten_to(1) == 10) by {
            assert(ten_to(0) == 1);
        }
    } else {
        assert(n / 10 < ten_to((w - 1) as nat));
        lemma_padded_step(n / 10, (w - 1) as nat);
        let short = number_text(n / 10, 10, (w - 1) as nat);
        if n < 10 {
            assert(n / 10 == 0 && n % 10 == n);
            assert(digits(0, 10) == seq![digit_char(0)]);
            assert(digit_char(0) == '0');
            assert(number_text(n, 10, w) =~= short.push(digit_char(n)));
        } else {
            assert(number_text(n, 10, w) =~= short.push(digit_char(n % 10)));
        }
    }
}

/// Numbers of one width sort as numbers do.
pub proof fn lemma_padded_sorts(a: nat, b: nat, w: nat)
    requires
        w >= 1,
        a < b < ten_to(w),
    ensures
        number_text(a, 10, w).len() == w,
        number_text(b, 10, w).len() == w,
        sorts_before(number_text(a, 10, w), number_text(b, 10, w)),
    decreases w,
{
    let s = number_text(a, 10, w);
    let t = number_text(b, 10, w);
    lemma_padded_step(a, w);
    lemma_padded_step(b, w);
    if w == 1 {
        assert(ten_to(1) == 10) by {
            assert(ten_to(0) == 1);
        }
        assert(s =~= seq![digit_char(a)] && t =~= seq![digit_char(b)]);
        assert(s.take(0) =~= t.take(0));
        assert(s[0] < t[0]);
    } else {
        let v = (w - 1) as nat;
        let p = number_text(a / 10, 10, v);
        let q = number_text(b / 10, 10, v);
        assert(b / 10 < ten_to(v));
        if a / 10 < b / 10 {
            lemma_padded_sorts(a / 10, b / 10, v);
            let k = choose|k: int|
                0 <= k <= p.len() && k < q.len() && #[trigger] p.take(k) == q.take(k) && (k
                    == p.len() || p[k] < q[k]);
            assert(s.take(k) =~= p.take(k));
            assert(t.take(k) =~= q.take(k));
        } else {
            assert(a / 10 == b / 10);
            assert(a % 10 < b % 10);
            lemma_padded_step(a / 10, v);
            assert(s.take(v as int) =~= p);
            assert(t.take(v as int) =~= p);
            assert(s[v as int] < t[v as int]);
        }
    }
}

/// Append one character.
fn push_digit(out: &mut String, d: u8)
    requires
        d < 16,
    ensures
        final(out)@ == old(out)@.push(digit_char(d as nat)),
{
    proof {
        reveal_strlit("0");
        reveal_strlit("1");
        reveal_strlit("2");
        reveal_strlit("3");
        reveal_strlit("4");
        reveal_strlit("5");
        reveal_strlit("6");
        reveal_strlit("7");
        reveal_strlit("8");
        reveal_strlit("9");
        reveal_strlit("a");
        reveal_strlit("b");
        reveal_strlit("c");
        reveal_strlit("d");
        reveal_strlit("e");
        reveal_strlit("f");
    }
    let s = match d {
        0 => "0",
        1 => "1",
        2 => "2",
        3 => "3",
        4 => "4",
        5 => "5",
        6 => "6",
        7 => "7",
        8 => "8",
        9 => "9",
        10 => "a",
        11 => "b",
        12 => "c",
        13 => "d",
        14 => "e",
        _ => "f",
    };
    assert(s@ =~= seq![digit_char(d as nat)]);
    out.append(s);
    assert(out@ =~= old(out)@.push(digit_char(d as nat)));
}

fn push_digits(out: &mut String, n: u64, base: u64)
    requires
        2 <= base <= 16,
    ensures
        final(out)@ == old(out)@ + digits(n as nat, base as nat),
    decreases n,
{
    if n < base {
        push_digit(out, n as u8);
    } else {
        assert(n / base < n) by (nonlinear_arith)
            requires
                n >= base,
                base >= 2,
        ;
        push_digits(out, n / base, base);
        push_digit(out, (n % base) as u8);
    }
    assert(out@ =~= old(out)@ + digits(n as nat, base as nat));
}

fn digit_count(n: u64, base: u64) -> (r: usize)
    requires
        2 <= base <= 16,
    ensures
        r == digits(n as nat, base as nat).len(),
        r <= 64,
    decreases n,
{
    proof {
        vstd::arithmetic::power2::lemma2_to64();
        lemma_digit_count(n as nat, base as nat, 64);
    }
    if n < base {
        1
    } else {
        assert(n / base < n) by (nonlinear_arith)
            requires
                n >= base,
                base >= 2,
        ;
        digit_count(n / base, base) + 1
    }
}

proof fn lemma_digit_count(n: nat, base: nat, k: nat)
    requires
        2 <= base,
        n < vstd::arithmetic::power2::pow2(k),
        k >= 1,
    ensures
        1 <= digits(n, base).len() <= k,
    decreases k,
{
    if n >= base {
        vstd::arithmetic::power2::lemma_pow2_unfold(k);
        assert(n / base <= n / 2) by (nonlinear_arith)
            requires
                base >= 2,
        ;
        if k == 1 {
            vstd::arithmetic::power2::lemma2_to64();
        } else {
            lemma_digit_count(n / base, base, (k - 1) as nat);
        }
    }
}

/// Append `n` in `base` with at least `width` characters, zero padded.
pub fn push_number(out: &mut String, n: u64, base: u64, width: usize)
    requires
        2 <= base <= 16,
    ensures
        final(out)@ == old(out)@ + number_text(n as nat, base as nat, width as nat),
{
    let have = digit_count(n, base);
    let ghost start = out@;
    let mut k: usize = have;
    while k < width
        invariant
            have <= k,
            have <= width ==> k <= width,
            have > width ==> k == have,
            out@ == start + Seq::new((k - have) as nat, |i: int| '0'),
        decreases width - k,
    {
        let ghost before = out@;
        push_digit(out, 0);
        k += 1;
        assert(Seq::new((k - have) as nat, |i: int| '0') =~= Seq::new(
            (k - 1 - have) as nat,
            |i: int| '0',
        ).push('0'));
        assert(out@ =~= start + Seq::new((k - have) as nat, |i: int| '0'));
    }
    push_digits(out, n, base);
    assert(out@ =~= start + number_text(n as nat, base as nat, width as nat));
}

/// Append `n` in hexadecimal.
pub fn push_wide_hex(out: &mut String, n: u128)
    ensures
        final(out)@ == old(out)@ + number_text(n as nat, 16, 0),
    decreases n,
{
    let ghost start = out@;
    if n <= u64::MAX as u128 {
        push_number(out, n as u64, 16, 0);
    } else {
        push_wide_hex(out, n / 16);
        push_digit(out, (n % 16) as u8);
        assert(digits(n as nat, 16) == digits(n as nat / 16, 16).push(digit_char(n as nat % 16)));
        assert(out@ =~= start + digits(n as nat, 16));
    }
}

/// The number that `s` spells in `base`, where it does and fits in `max`.
pub fn parse_number(s: &[char], base: u64, max: u64) -> (r: Option<u64>)
    requires
        2 <= base <= 16,
    ensures
        (match r {
            Some(v) => Some(v as nat),
            None => None,
        }) == parsed_number(s@, base as nat, max as nat),
{
    let start: usize = if s.len() > 1 && s[0] == '+' {
        1
    } else {
        0
    };
    let ghost body = s@.skip(start as int);
    assert(start == 0 ==> body =~= s@);
    if s.len() == start {
        return None;
    }
    let mut i: usize = start;
    let mut value: u64 = 0;
    let mut over: bool = false;
    while i < s.len()
        invariant
            start <= i <= s@.len(),
            start == (if s@.len() > 1 && s@[0] == '+' {
                1int
            } else {
                0
            }),
            body == s@.skip(start as int),
            body.len() > 0,
            2 <= base <= 16,
            start == 0 ==> body == s@,
            !over ==> digits_value(body.take(i - start), base as nat) == Some(value as nat),
            over ==> (digits_value(body.take(i - start), base as nat) matches Some(v) && v > max),
            !over ==> value <= max,
        decreases s@.len() - i,
    {
        let c = s[i];
        let ghost pre = body.take(i - start);
        let ghost nxt = body.take(i + 1 - start);
        assert(nxt.drop_last() =~= pre);
        assert(nxt.last() == c);
        let d: u64 = if '0' <= c && c <= '9' {
            c as u64 - '0' as u64
        } else if 'a' <= c && c <= 'f' {
            c as u64 - 'a' as u64 + 10
        } else if 'A' <= c && c <= 'F' {
            c as u64 - 'A' as u64 + 10
        } else {
            base
        };
        if d >= base {
            proof {
                assert(digits_value(nxt, base as nat) is None);
                lemma_prefix_none(body, i + 1 - start, base as nat);
            }
            return None;
        }
        let ghost hi: nat = digits_value(pre, base as nat).unwrap();
        assert(digits_value(nxt, base as nat) == Some(hi * (base as nat) + d as nat));
        if over {
            assert(hi * (base as nat) + d as nat > max) by (nonlinear_arith)
                requires
                    hi > max,
                    base >= 2,
            ;
        } else {
            assert(0 <= (value as u128) * (base as u128) <= 0xffff_ffff_ffff_ffffu64 * 16)
                by (nonlinear_arith)
                requires
                    value <= 0xffff_ffff_ffff_ffffu64,
                    base <= 16,
            ;
            let scaled = (value as u128) * (base as u128);
            let next = scaled + d as u128;
            if next > max as u128 {
                over = true;
            } else {
                value = next as u64;
            }
        }
        i += 1;
    }
    assert(body.take(i - start) =~= body);
    if over {
        None
    } else {
        Some(value)
    }
}

proof fn lemma_prefix_none(s: Seq<char>, k: int, base: nat)
    requires
        0 <= k <= s.len(),
        digits_value(s.take(k), base) is None,
    ensures
        digits_value(s, base) is None,
    decreases s.len() - k,
{
    if k == s.len() {
        assert(s.take(k) =~= s);
    } else {
        assert(s.take(k + 1).drop_last() =~= s.take(k));
        lemma_prefix_none(s, k + 1, base);
    }
}

proof fn lemma_digit_round_trip(d: nat, base: nat)
    requires
        d < base <= 16,
    ensures
        digit_value(digit_char(d), base) == Some(d),
        digit_char(d) != '-' && digit_char(d) != '+' && digit_char(d) != '.',
{
}

/// The digits of a number spell that number.
pub proof fn lemma_digits_round_trip(n: nat, base: nat)
    requires
        2 <= base <= 16,
    ensures
        digits(n, base).len() >= 1,
        digits_value(digits(n, base), base) == Some(n),
        forall|i: int|
            0 <= i < digits(n, base).len() ==> #[trigger] digits(n, base)[i] != '-' && digits(
                n,
                base,
            )[i] != '+' && digits(n, base)[i] != '.',
    decreases n,
{
    if n < base {
        lemma_digit_round_trip(n, base);
        let s = digits(n, base);
        assert(s.drop_last() =~= Seq::<char>::empty());
        assert(digits_value(s.drop_last(), base) == Some(0nat));
        assert(0 * base == 0);
    } else {
        assert(n / base < n) by (nonlinear_arith)
            requires
                n >= base,
                base >= 2,
        ;
        lemma_digits_round_trip(n / base, base);
        vstd::arithmetic::div_mod::lemma_fundamental_div_mod(n as int, base as int);
        vstd::arithmetic::mul::lemma_mul_is_commutative(base as int, (n / base) as int);
        lemma_digit_round_trip(n % base, base);
        let s = digits(n, base);
        assert(s.drop_last() =~= digits(n / base, base));
        assert(s.last() == digit_char(n % base));
    }
}

/// Leading zeros do not change the number that digits spell.
pub proof fn lemma_zeros_value(z: nat, s: Seq<char>, base: nat)
    requires
        2 <= base <= 16,
    ensures
        digits_value(Seq::new(z, |i: int| '0') + s, base) == digits_value(s, base),
    decreases s.len(), z,
{
    let zs = Seq::new(z, |i: int| '0');
    if s.len() == 0 {
        assert(zs + s =~= zs);
        if z > 0 {
            let prev = Seq::new((z - 1) as nat, |i: int| '0');
            assert(zs.drop_last() =~= prev);
            assert(prev + s =~= prev);
            lemma_zeros_value((z - 1) as nat, s, base);
            assert(zs.last() == digit_char(0));
            lemma_digit_round_trip(0, base);
            assert(0 * base == 0);
        }
    } else {
        assert((zs + s).drop_last() =~= zs + s.drop_last());
        assert((zs + s).last() == s.last());
        lemma_zeros_value(z, s.drop_last(), base);
    }
}

/// Rendering a number, padded to any width, and reading the text back gives the number.
pub proof fn lemma_number_text_round_trip(n: nat, base: nat, width: nat, max: nat)
    requires
        2 <= base <= 16,
        n <= max,
    ensures
        parsed_number(number_text(n, base, width), base, max) == Some(n),
        number_text(n, base, width).len() >= 1,
        number_text(n, base, width).len() >= width,
        forall|i: int|
            0 <= i < number_text(n, base, width).len() ==> #[trigger] number_text(n, base, width)[i]
                != '-' && number_text(n, base, width)[i] != '+' && number_text(n, base, width)[i]
                != '.',
{
    let d = digits(n, base);
    lemma_digits_round_trip(n, base);
    if d.len() < width {
        lemma_zeros_value((width - d.len()) as nat, d, base);
    }
}

} // verus!
