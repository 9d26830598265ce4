//! Numbers as text.
use vstd::arithmetic::div_mod::*;
use vstd::arithmetic::power::*;
use vstd::prelude::*;
use vstd::string::*;

verus! {

/// Appends a character, by [`String::push`].
#[verifier::external_body]
pub(crate) fn push_char(s: &mut String, c: char)
    ensures
        final(s)@ == old(s)@.push(c),
{
    s.push(c);
}

/// The decimal digit of a number less than ten.
pub open spec fn digit(d: nat) -> char {
    (48 + d) as char
}

/// The decimal digits of a number.
pub open spec fn decimal(n: nat) -> Seq<char>
    decreases n,
{
    if n < 10 {
        seq![digit(n)]
    } else {
        decimal(n / 10).push(digit(n % 10))
    }
}

/// Appends the decimal digits of a number.
pub fn append_decimal(s: &mut String, n: u128)
    ensures
        final(s)@ == old(s)@ + decimal(n as nat),
    decreases n,
{
    let ghost before: Seq<char> = s@;
    if n >= 10 {
        append_decimal(s, n / 10);
    }
    let d: u8 = (n % 10) as u8;
    push_char(s, (48 + d) as char);
    proof {
        if n >= 10 {
            assert(s@ =~= before + decimal(n as nat / 10).push(digit(n as nat % 10)));
        } else {
            assert(s@ =~= before + seq![digit(n as nat)]);
        }
    }
}

/// The superscript form of a character: digits and the minus sign have one.
pub open spec fn raised(c: char) -> char {
    match c {
        '0' => '⁰',
        '1' => '¹',
        '2' => '²',
        '3' => '³',
        '4' => '⁴',
        '5' => '⁵',
        '6' => '⁶',
        '7' => '⁷',
        '8' => '⁸',
        '9' => '⁹',
        '-' => '⁻',
        other => other,
    }
}

/// Text in superscript.
pub open spec fn superscripted(s: Seq<char>) -> Seq<char> {
    s.map_values(|c: char| raised(c))
}

/// Appends text in superscript.
pub fn append_superscript(s: &mut String, text: &str)
    ensures
        final(s)@ == old(s)@ + superscripted(text@),
{
    let ghost before: Seq<char> = s@;
    let n: usize = text.unicode_len();
    let mut i: usize = 0;
    proof {
        assert(before + superscripted(text@.take(0)) =~= before);
    }
    while i < n
        invariant
            i <= n,
            n == text@.len(),
            s@ == before + superscripted(text@.take(i as int)),
        decreases n - i,
    {
        let c: char = match text.get_char(i) {
            '0' => '⁰',
            '1' => '¹',
            '2' => '²',
            '3' => '³',
            '4' => '⁴',
            '5' => '⁵',
            '6' => '⁶',
            '7' => '⁷',
            '8' => '⁸',
            '9' => '⁹',
            '-' => '⁻',
            other => other,
        };
        push_char(s, c);
        i += 1;
        proof {
            assert(s@ =~= before + superscripted(text@.take(i as int)));
        }
    }
    proof {
        assert(text@.take(n as int) =~= text@);
    }
}

/// Appends the decimal digits of a number in superscript.
pub fn append_exponent(s: &mut String, n: u128)
    ensures
        final(s)@ == old(s)@ + superscripted(decimal(n as nat)),
{
    let mut t: String = String::new();
    append_decimal(&mut t, n);
    proof {
        assert(t@ =~= decimal(n as nat));
    }
    append_superscript(s, t.as_str());
}

/// The digits of a number in decimal: the one in place `i` from the right is that of the `i`-th power of
/// ten, and there are as many as it takes, with no zeros in front.
pub proof fn lemma_decimal_digits(n: nat, i: nat)
    requires
        i < decimal(n).len(),
    ensures
        decimal(n)[decimal(n).len() - 1 - i] as int == '0' as int + (n / pow(10, i) as nat) % 10,
        n < pow(10, decimal(n).len()),
        n > 0 ==> pow(10, (decimal(n).len() - 1) as nat) <= n,
        n == 0 ==> decimal(n).len() == 1,
    decreases n,
{
    let d: Seq<char> = decimal(n);
    lemma_pow0(10);
    lemma_pow1(10);
    assert(n as int / 1 == n);
    assert(d.last() == digit(n % 10));
    assert(digit(n % 10) as int == 48 + n % 10);
    if n >= 10 {
        let m: nat = n / 10;
        let e: Seq<char> = decimal(m);
        assert(e.len() > 0);
        assert(d =~= e.push(digit(n % 10)));
        reveal(pow);
        if i > 0 {
            lemma_decimal_digits(m, (i - 1) as nat);
            assert(d[d.len() - 1 - i] == e[e.len() - 1 - (i - 1)]);
            lemma_pow_positive(10, (i - 1) as nat);
            lemma_div_denominator(n as int, 10, pow(10, (i - 1) as nat));
            assert(pow(10, i) == 10 * pow(10, (i - 1) as nat));
            assert(n as int / pow(10, i) == m as int / pow(10, (i - 1) as nat));
        } else {
            lemma_decimal_digits(m, 0);
        }
        assert(pow(10, d.len()) == 10 * pow(10, e.len()));
        assert(pow(10, e.len()) == 10 * pow(10, (e.len() - 1) as nat));
    }
}

/// Text in superscript has the superscript form of each character in its place: of the digits and of the
/// minus sign their own one, and of the others themselves.
pub proof fn lemma_superscripted(s: Seq<char>, i: int)
    requires
        0 <= i < s.len(),
    ensures
        superscripted(s).len() == s.len(),
        forall|d: int|
            0 <= d < 10 && s[i] as int == '0' as int + d ==> superscripted(s)[i] == #[trigger] "⁰¹²³⁴⁵⁶⁷⁸⁹"@[d],
        s[i] == '-' ==> superscripted(s)[i] == '⁻',
        s[i] != '-' && !('0' <= s[i] <= '9') ==> superscripted(s)[i] == s[i],
{
    reveal_strlit("⁰¹²³⁴⁵⁶⁷⁸⁹");
}

/// Appending a number appends its digits, appending in superscript the superscript form of each character,
/// and appending an exponent both.
pub proof fn lemma_appended(s: Seq<&mut String>, n: u128, text: &str)
    requires
        s.len() == 3,
        call_ensures(append_decimal, (s[0], n), ()),
        call_ensures(append_superscript, (s[1], text), ()),
        call_ensures(append_exponent, (s[2], n), ()),
    ensures
        final(s[0])@ == s[0]@ + decimal(n as nat),
        final(s[1])@ == s[1]@ + superscripted(text@),
        text@ == decimal(n as nat) && s[1]@ == s[2]@ ==> final(s[1])@ == final(s[2])@,
        final(s[2])@ == s[2]@ + superscripted(decimal(n as nat)),
{
}

} // verus!
