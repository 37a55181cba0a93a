//! Decimal digit runs at the front of file names: what they are worth as a
//! number, and how a number is written back with a minimum digit width.
use vstd::prelude::*;

verus! {

/// True of the ten ASCII digit characters.
pub open spec fn is_digit(c: char) -> bool {
    48 <= c as u32 && c as u32 <= 57
}

/// Numeric value of one digit character.
pub open spec fn digit_val(c: char) -> nat
    recommends
        is_digit(c),
{
    (c as u32 - 48) as nat
}

/// The digit character for a value below ten.
pub open spec fn digit_char(d: nat) -> char
    recommends
        d < 10,
{
    if d == 0 {
        '0'
    } else if d == 1 {
        '1'
    } else if d == 2 {
        '2'
    } else if d == 3 {
        '3'
    } else if d == 4 {
        '4'
    } else if d == 5 {
        '5'
    } else if d == 6 {
        '6'
    } else if d == 7 {
        '7'
    } else if d == 8 {
        '8'
    } else {
        '9'
    }
}

/// Length of the run of digit characters at the front of `s`.
pub open spec fn digit_run_len(s: Seq<char>) -> nat
    decreases s.len(),
{
    if s.len() == 0 || !is_digit(s[0]) {
        0
    } else {
        1 + digit_run_len(s.drop_first())
    }
}

/// Value of a sequence of digit characters, most significant first.
pub open spec fn digits_value(s: Seq<char>) -> nat
    decreases s.len(),
{
    if s.len() == 0 {
        0
    } else {
        digits_value(s.drop_last()) * 10 + digit_val(s.last())
    }
}

/// Decimal digits of `n`, most significant first, without leading zeros.
pub open spec fn spec_digits(n: nat) -> Seq<char>
    decreases n,
{
    if n < 10 {
        seq![digit_char(n)]
    } else {
        spec_digits(n / 10).push(digit_char(n % 10))
    }
}

/// A run of `k` zero characters.
pub open spec fn zero_chars(k: nat) -> Seq<char> {
    Seq::new(k, |i: int| '0')
}

/// Decimal digits of `n`, left-padded with zeros to at least `w` characters.
pub open spec fn spec_padded(n: nat, w: nat) -> Seq<char> {
    if spec_digits(n).len() >= w {
        spec_digits(n)
    } else {
        zero_chars((w - spec_digits(n).len()) as nat) + spec_digits(n)
    }
}

/// The run length is the first position holding no digit.
pub proof fn lemma_digit_run_len_is(s: Seq<char>, i: nat)
    requires
        i <= s.len(),
        forall|j: int| 0 <= j < i ==> is_digit(s[j]),
        i == s.len() || !is_digit(s[i as int]),
    ensures
        digit_run_len(s) == i,
    decreases s.len(),
{
    if i == 0 {
    } else {
        assert(is_digit(s[0]));
        let t = s.drop_first();
        assert forall|j: int| 0 <= j < i - 1 implies is_digit(t[j]) by {
            assert(t[j] == s[j + 1]);
        }
        if i < s.len() {
            assert(t[i - 1] == s[i as int]);
        }
        lemma_digit_run_len_is(t, (i - 1) as nat);
    }
}

/// What holds of the digit run: it is maximal.
pub proof fn lemma_digit_run_len_props(s: Seq<char>)
    ensures
        digit_run_len(s) <= s.len(),
        forall|j: int| 0 <= j < digit_run_len(s) ==> is_digit(s[j]),
        digit_run_len(s) == s.len() || !is_digit(s[digit_run_len(s) as int]),
    decreases s.len(),
{
    if s.len() == 0 || !is_digit(s[0]) {
    } else {
        let t = s.drop_first();
        lemma_digit_run_len_props(t);
        assert forall|j: int| 0 <= j < digit_run_len(s) implies is_digit(s[j]) by {
            if j > 0 {
                assert(t[j - 1] == s[j]);
            }
        }
        if digit_run_len(s) < s.len() {
            assert(t[digit_run_len(t) as int] == s[digit_run_len(s) as int]);
        }
    }
}

/// A longer run of digits is worth at least as much as a shorter one.
pub proof fn lemma_digits_value_monotone(s: Seq<char>, i: int, j: int)
    requires
        0 <= i <= j <= s.len(),
    ensures
        digits_value(s.take(i)) <= digits_value(s.take(j)),
    decreases j - i,
{
    if i < j {
        lemma_digits_value_monotone(s, i, j - 1);
        let p = s.take(j);
        assert(p.drop_last() =~= s.take(j - 1));
        assert(digits_value(s.take(j - 1)) * 10 >= digits_value(s.take(j - 1))) by {
            assert(digits_value(s.take(j - 1)) >= 0);
        }
    }
}

/// True when `name` opens with a digit run whose value fits the number type.
pub open spec fn has_number(name: Seq<char>) -> bool {
    digit_run_len(name) > 0 && digits_value(name.take(digit_run_len(name) as int)) <= u32::MAX
}

/// Value of the leading digit run.
pub open spec fn number_of(name: Seq<char>) -> nat {
    digits_value(name.take(digit_run_len(name) as int))
}

/// What follows the leading digit run.
pub open spec fn remainder_of(name: Seq<char>) -> Seq<char> {
    name.skip(digit_run_len(name) as int)
}

/// Digit count of the leading run.
pub open spec fn width_of(name: Seq<char>) -> nat {
    digit_run_len(name)
}

/// True when the character of `s` at position `i` is a digit.
fn digit_at(s: &str, i: usize) -> (r: bool)
    requires
        i < s@.len(),
    ensures
        r == is_digit(s@[i as int]),
{
    let cv = s.get_char(i) as u32;
    48 <= cv && cv <= 57
}

/// Parse the leading digit run of `s`: its value and its length.
/// Returns `None` when `s` opens with no digit, or when the run's value
/// exceeds `u32::MAX` (such a file counts as unnumbered).
pub fn parse_leading_number(s: &str) -> (r: Option<(u32, usize)>)
    ensures
        r is Some <==> has_number(s@),
        r matches Some((v, k)) ==> v as nat == number_of(s@) && k as nat == digit_run_len(s@),
{
    let n = s.unicode_len();
    let mut i: usize = 0;
    let mut acc: u64 = 0;
    proof {
        lemma_digit_run_len_props(s@);
        assert(s@.take(0) =~= Seq::<char>::empty());
    }
    while i < n && digit_at(s, i)
        invariant
            0 <= i <= n,
            n == s@.len(),
            forall|j: int| 0 <= j < i ==> is_digit(s@[j]),
            acc as nat == digits_value(s@.take(i as int)),
            acc <= u32::MAX,
            digit_run_len(s@) <= s@.len(),
            forall|j: int| 0 <= j < digit_run_len(s@) ==> is_digit(s@[j]),
            digit_run_len(s@) == s@.len() || !is_digit(s@[digit_run_len(s@) as int]),
        decreases n - i,
    {
        let c = s.get_char(i);
        let d = c as u32 - 48;
        let next: u64 = acc * 10 + d as u64;
        proof {
            let p = s@.take(i + 1);
            assert(p.drop_last() =~= s@.take(i as int));
            assert(p.last() == s@[i as int]);
            assert(next as nat == digits_value(s@.take(i + 1)));
        }
        if next > u32::MAX as u64 {
            proof {
                // the run covers position i, so it is at least i + 1 long,
                // and the full run's value is at least this prefix's value
                assert(is_digit(s@[i as int]));
                assert(digit_run_len(s@) >= i + 1) by {
                    if digit_run_len(s@) <= i {
                        assert(!is_digit(s@[digit_run_len(s@) as int]));
                    }
                }
                lemma_digits_value_monotone(s@, i + 1, digit_run_len(s@) as int);
            }
            return None;
        }
        acc = next;
        i = i + 1;
    }
    proof {
        lemma_digit_run_len_is(s@, i as nat);
    }
    if i == 0 {
        None
    } else {
        Some((acc as u32, i))
    }
}

/// The one-character string for a digit value.
fn digit_str(d: u32) -> (r: &'static str)
    requires
        d < 10,
    ensures
        r@ =~= seq![digit_char(d as nat)],
{
    let table = "0123456789";
    proof {
        reveal_strlit("0123456789");
    }
    let r = table.substring_char(d as usize, d as usize + 1);
    proof {
        assert(r@ =~= seq![digit_char(d as nat)]);
    }
    r
}

/// Write `n` in decimal, without padding.
fn u32_digits(n: u32) -> (r: String)
    ensures
        r@ == spec_digits(n as nat),
    decreases n,
{
    if n < 10 {
        String::from_str(digit_str(n))
    } else {
        let high = u32_digits(n / 10);
        high.concat(digit_str(n % 10))
    }
}

/// Write `n` in decimal, left-padded with zeros to at least `min_width`
/// characters.
pub fn format_number(n: u32, min_width: usize) -> (r: String)
    ensures
        r@ == spec_padded(n as nat, min_width as nat),
{
    let digits = u32_digits(n);
    let dl = digits.as_str().unicode_len();
    if dl >= min_width {
        digits
    } else {
        let pad = min_width - dl;
        let mut zeros = String::new();
        let mut i: usize = 0;
        proof {
            reveal_strlit("0");
            assert(zeros@ =~= zero_chars(0));
        }
        while i < pad
            invariant
                0 <= i <= pad,
                zeros@ =~= zero_chars(i as nat),
                "0"@ =~= seq!['0'],
            decreases pad - i,
        {
            zeros.append("0");
            i = i + 1;
            proof {
                assert(zeros@ =~= zero_chars(i as nat));
            }
        }
        zeros.concat(digits.as_str())
    }
}

/// The digits of a number are digits, and there is at least one.
pub proof fn lemma_spec_digits_are_digits(n: nat)
    ensures
        spec_digits(n).len() >= 1,
        forall|j: int| 0 <= j < spec_digits(n).len() ==> is_digit(spec_digits(n)[j]),
    decreases n,
{
    if n < 10 {
    } else {
        lemma_spec_digits_are_digits(n / 10);
    }
}

/// Reading the written digits of a number gives the number back.
pub proof fn lemma_spec_digits_value(n: nat)
    ensures
        digits_value(spec_digits(n)) == n,
    decreases n,
{
    if n < 10 {
        let s = seq![digit_char(n)];
        assert(s.drop_last() =~= Seq::<char>::empty());
        assert(s.last() == digit_char(n));
        assert(digit_val(digit_char(n)) == n);
        assert(digits_value(s) == digits_value(s.drop_last()) * 10 + digit_val(s.last()));
    } else {
        lemma_spec_digits_value(n / 10);
        let s = spec_digits(n);
        assert(s.drop_last() =~= spec_digits(n / 10));
        assert(digit_val(digit_char((n % 10) as nat)) == n % 10);
        assert(digits_value(s) == (n / 10) * 10 + n % 10);
    }
}

/// Zeros in front change no value.
pub proof fn lemma_zeros_prefix_value(k: nat, s: Seq<char>)
    ensures
        digits_value(zero_chars(k) + s) == digits_value(s),
    decreases s.len(), k,
{
    if s.len() == 0 {
        if k == 0 {
            assert(zero_chars(0) + s =~= s);
        } else {
            let w = zero_chars(k) + s;
            assert(w.drop_last() =~= zero_chars((k - 1) as nat) + s);
            assert(w.last() == '0');
            lemma_zeros_prefix_value((k - 1) as nat, s);
        }
    } else {
        let w = zero_chars(k) + s;
        assert(w.drop_last() =~= zero_chars(k) + s.drop_last());
        assert(w.last() == s.last());
        lemma_zeros_prefix_value(k, s.drop_last());
    }
}

/// A padded number reads back as the number; its characters are all digits
/// and it is at least as wide as asked.
pub proof fn lemma_padded_props(n: nat, w: nat)
    ensures
        digits_value(spec_padded(n, w)) == n,
        spec_padded(n, w).len() >= w,
        spec_padded(n, w).len() >= 1,
        forall|j: int| 0 <= j < spec_padded(n, w).len() ==> is_digit(spec_padded(n, w)[j]),
{
    lemma_spec_digits_are_digits(n);
    lemma_spec_digits_value(n);
    if spec_digits(n).len() < w {
        let k = (w - spec_digits(n).len()) as nat;
        lemma_zeros_prefix_value(k, spec_digits(n));
        assert forall|j: int| 0 <= j < spec_padded(n, w).len() implies is_digit(
            spec_padded(n, w)[j],
        ) by {
            if j < k {
                assert(spec_padded(n, w)[j] == '0');
            } else {
                assert(spec_padded(n, w)[j] == spec_digits(n)[j - k]);
            }
        }
    }
}

/// Digits followed by a non-digit (or nothing) form exactly the digit run.
pub proof fn lemma_run_of_digits_concat(a: Seq<char>, b: Seq<char>)
    requires
        forall|j: int| 0 <= j < a.len() ==> is_digit(a[j]),
        b.len() == 0 || !is_digit(b[0]),
    ensures
        digit_run_len(a + b) == a.len(),
        (a + b).take(a.len() as int) =~= a,
        (a + b).skip(a.len() as int) =~= b,
{
    let w = a + b;
    assert forall|j: int| 0 <= j < a.len() implies is_digit(w[j]) by {
        assert(w[j] == a[j]);
    }
    if a.len() < w.len() {
        assert(w[a.len() as int] == b[0]);
    }
    lemma_digit_run_len_is(w, a.len());
}

} // verus!
