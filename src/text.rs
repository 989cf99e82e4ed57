//! Text building blocks: decimal numerals, joins, padding, identifier cleanup.
use vstd::prelude::*;
use itertools::Itertools;

verus! {

/// The character of a decimal digit.
pub open spec fn digit_char(d: nat) -> char {
    if d == 0 { '0' } else if d == 1 { '1' } else if d == 2 { '2' } else if d == 3 { '3' }
    else if d == 4 { '4' } else if d == 5 { '5' } else if d == 6 { '6' } else if d == 7 { '7' }
    else if d == 8 { '8' } else { '9' }
}

/// The decimal numeral of `n`, without leading zeros.
pub open spec fn decimal(n: nat) -> Seq<char>
    decreases n,
{
    if n < 10 {
        seq![digit_char(n)]
    } else {
        decimal(n / 10).push(digit_char(n % 10))
    }
}

/// The parts, with `sep` between each two neighbours.
pub open spec fn join_seq(parts: Seq<Seq<char>>, sep: Seq<char>) -> Seq<char>
    decreases parts.len(),
{
    if parts.len() == 0 {
        Seq::empty()
    } else if parts.len() == 1 {
        parts[0]
    } else {
        join_seq(parts.drop_last(), sep) + sep + parts.last()
    }
}

/// The views of a list of strings.
pub open spec fn views(v: Seq<String>) -> Seq<Seq<char>> {
    v.map_values(|s: String| s@)
}

/// `s` with each `-` turned into `_`, so that it can stand in an identifier.
pub open spec fn underscored(s: Seq<char>) -> Seq<char> {
    s.map_values(|c: char| if c == '-' { '_' } else { c })
}

/// `s` followed by spaces up to `width` characters.
pub open spec fn padded(s: Seq<char>, width: nat) -> Seq<char> {
    if s.len() >= width {
        s
    } else {
        s + Seq::new((width - s.len()) as nat, |i: int| ' ')
    }
}

fn digit_str(d: u64) -> (r: &'static str)
    requires
        d < 10,
    ensures
        r@ == seq![digit_char(d as nat)],
{
    proof {
        reveal_strlit("0");
        reveal_strlit("1");
        reveal_strlit("2");
        reveal_strlit("3");
        reveal_strlit("4");
        reveal_strlit("5");
        reveal_strlit("6");
        reveal_strlit("7");
        reveal_strlit("8");
        reveal_strlit("9");
    }
    if d == 0 { "0" } else if d == 1 { "1" } else if d == 2 { "2" } else if d == 3 { "3" }
    else if d == 4 { "4" } else if d == 5 { "5" } else if d == 6 { "6" } else if d == 7 { "7" }
    else if d == 8 { "8" } else { "9" }
}

/// Appends the decimal numeral of `n`.
pub fn push_decimal(s: &mut String, n: u64)
    ensures
        final(s)@ == old(s)@ + decimal(n as nat),
    decreases n,
{
    if n >= 10 {
        push_decimal(s, n / 10);
        s.append(digit_str(n % 10));
        assert(decimal(n as nat) == decimal((n / 10) as nat).push(digit_char((n % 10) as nat)));
    } else {
        s.append(digit_str(n));
    }
}

/// Appends the decimal numeral of a 128-bit `n`.
pub fn push_u128(s: &mut String, n: u128)
    ensures
        final(s)@ == old(s)@ + decimal(n as nat),
    decreases n,
{
    if n >= 10 {
        push_u128(s, n / 10);
        s.append(digit_str((n % 10) as u64));
        assert(decimal(n as nat) == decimal((n / 10) as nat).push(digit_char((n % 10) as nat)));
    } else {
        s.append(digit_str(n as u64));
    }
}

/// The decimal numeral of `n`.
pub fn decimal_string(n: u64) -> (r: String)
    ensures
        r@ == decimal(n as nat),
{
    let mut s = String::new();
    push_decimal(&mut s, n);
    s
}

/// Relies on itertools' `Itertools::join`: the parts' texts with `sep` between
/// each two neighbours, empty for no parts.
#[verifier::external_body]
pub(crate) fn join_strings(parts: &Vec<String>, sep: &str) -> (r: String)
    ensures
        r@ == join_seq(views(parts@), sep@),
{
    parts.iter().join(sep)
}

/// Appends `name` with each `-` turned into `_`.
pub fn push_underscored(s: &mut String, name: &str)
    ensures
        final(s)@ == old(s)@ + underscored(name@),
{
    let n = name.unicode_len();
    let mut i: usize = 0;
    proof {
        reveal_strlit("_");
    }
    while i < n
        invariant
            n == name@.len(),
            i <= n,
            s@ == old(s)@ + underscored(name@).subrange(0, i as int),
        decreases n - i,
    {
        let ghost prev = s@;
        proof {
            reveal_strlit("_");
        }
        let c = name.get_char(i);
        if c == '-' {
            s.append("_");
        } else {
            let one = name.substring_char(i, i + 1);
            assert(one@ =~= seq![c]);
            s.append(one);
        }
        assert(s@ =~= prev + seq![underscored(name@)[i as int]]);
        assert(underscored(name@).subrange(0, i + 1) == underscored(name@).subrange(0, i as int).push(
            underscored(name@)[i as int],
        ));
        i += 1;
    }
    assert(underscored(name@).subrange(0, n as int) =~= underscored(name@));
}

/// Appends `text` followed by spaces up to `width` characters.
pub fn push_padded(s: &mut String, text: &str, width: usize)
    ensures
        final(s)@ == old(s)@ + padded(text@, width as nat),
{
    let n = text.unicode_len();
    s.append(text);
    if n < width {
        let mut k: usize = n;
        proof {
            reveal_strlit(" ");
        }
        while k < width
            invariant
                n == text@.len(),
                n <= k <= width,
                s@ == old(s)@ + text@ + Seq::new((k - n) as nat, |i: int| ' '),
            decreases width - k,
        {
            let ghost prev = s@;
            proof {
                reveal_strlit(" ");
            }
            s.append(" ");
            assert(s@ =~= prev.push(' '));
            assert(Seq::new((k + 1 - n) as nat, |i: int| ' ') =~= Seq::new((k - n) as nat, |i: int| ' ').push(' '));
            k += 1;
        }
        assert(s@ =~= old(s)@ + padded(text@, width as nat));
    } else {
        assert(padded(text@, width as nat) == text@);
    }
}

} // verus!
