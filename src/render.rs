//! Text of the grid: each cell's value in decimal, right-justified in a
//! field one character wider than the largest value needs.

use vstd::prelude::*;
use vstd::string::StringExecFns;
use crate::matrix::{ColoredMatrix, GridText};

verus! {

/// The decimal digit character for `d` in `0..10`.
pub open spec fn digit_char(d: int) -> char {
    if d == 1 {
        '1'
    } else if d == 2 {
        '2'
    } else if d == 3 {
        '3'
    } else if d == 4 {
        '4'
    } else if d == 5 {
        '5'
    } else if d == 6 {
        '6'
    } else if d == 7 {
        '7'
    } else if d == 8 {
        '8'
    } else if d == 9 {
        '9'
    } else {
        '0'
    }
}

/// The value of a decimal digit character.
pub open spec fn digit_value(c: char) -> nat {
    if c == '1' {
        1
    } else if c == '2' {
        2
    } else if c == '3' {
        3
    } else if c == '4' {
        4
    } else if c == '5' {
        5
    } else if c == '6' {
        6
    } else if c == '7' {
        7
    } else if c == '8' {
        8
    } else if c == '9' {
        9
    } else {
        0
    }
}

/// The decimal representation of `n`, without leading zeros.
pub open spec fn decimal(n: nat) -> Seq<char>
    decreases n,
{
    if n < 10 {
        seq![digit_char(n as int)]
    } else {
        decimal(n / 10).push(digit_char((n % 10) as int))
    }
}

/// `k` spaces.
pub open spec fn spaces(k: int) -> Seq<char> {
    Seq::new(if k > 0 { k as nat } else { 0 }, |i: int| ' ')
}

/// `n` in decimal, right-justified in a field of `width` characters (wider
/// where the digits need more).
pub open spec fn rendered_field(n: nat, width: int) -> Seq<char> {
    spaces(width - decimal(n).len()) + decimal(n)
}

/// The number that a string of decimal digits spells.
pub open spec fn digits_value(s: Seq<char>) -> nat
    decreases s.len(),
{
    if s.len() == 0 {
        0
    } else {
        digits_value(s.drop_last()) * 10 + digit_value(s.last())
    }
}

/// The number in a field: leading spaces skipped, then decimal digits.
pub open spec fn parse_field(s: Seq<char>) -> nat
    decreases s.len(),
{
    if s.len() == 0 {
        0
    } else if s[0] == ' ' {
        parse_field(s.drop_first())
    } else {
        digits_value(s)
    }
}

proof fn lemma_decimal_digits(n: nat)
    ensures
        digits_value(decimal(n)) == n,
        decimal(n).len() >= 1,
        decimal(n)[0] != ' ',
    decreases n,
{
    reveal_with_fuel(decimal, 2);
    if n >= 10 {
        lemma_decimal_digits(n / 10);
        let d = decimal(n);
        assert(d.drop_last() == decimal(n / 10));
        assert(d[0] == decimal(n / 10)[0]);
        assert(d.last() == digit_char((n % 10) as int));
        assert(digits_value(d) == digits_value(d.drop_last()) * 10 + digit_value(d.last()));
        assert((n / 10) * 10 + n % 10 == n);
    } else {
        let d = decimal(n);
        assert(d.drop_last() =~= Seq::<char>::empty());
        assert(digits_value(d) == digits_value(d.drop_last()) * 10 + digit_value(d.last()));
    }
}

proof fn lemma_skip_spaces(k: int, d: Seq<char>)
    requires
        d.len() >= 1,
        d[0] != ' ',
    ensures
        parse_field(spaces(k) + d) == digits_value(d),
    decreases if k > 0 {
        k
    } else {
        0
    },
{
    if k > 0 {
        let s = spaces(k) + d;
        assert(s.drop_first() =~= spaces(k - 1) + d);
        lemma_skip_spaces(k - 1, d);
    } else {
        assert(spaces(k) + d =~= d);
    }
}

/// Reading back a rendered field gives the number that was rendered.
pub proof fn lemma_field_round_trip(n: nat, width: int)
    ensures
        parse_field(rendered_field(n, width)) == n,
{
    lemma_decimal_digits(n);
    lemma_skip_spaces(width - decimal(n).len(), decimal(n));
}

/// Reading back every field of a rendered grid gives the grid's values, cell
/// for cell.
pub proof fn lemma_render_round_trip(g: &ColoredMatrix, text: GridText)
    requires
        g.wf(),
        g.is_rendered_as(text),
    ensures
        text.len() == g.spec_rows(),
        forall|i: int| 0 <= i < g.spec_rows() ==> #[trigger] text[i].len() == g.spec_cols(),
        forall|i: int, j: int|
            0 <= i < g.spec_rows() && 0 <= j < g.spec_cols() ==> #[trigger] parse_field(text[i][j])
                == g.cell(i, j).value,
{
    assert forall|i: int, j: int|
        0 <= i < g.spec_rows() && 0 <= j < g.spec_cols() implies #[trigger] parse_field(text[i][j])
            == g.cell(i, j).value by {
        lemma_field_round_trip(g.cell(i, j).value as nat, g.field_width_spec());
    }
}

/// The one-character string of the decimal digit `d`.
fn digit_str(d: usize) -> (r: &'static str)
    requires
        d < 10,
    ensures
        r@ == seq![digit_char(d as int)],
{
    proof {
        reveal_strlit("0");
        reveal_strlit("1");
        reveal_strlit("2");
        reveal_strlit("3");
        reveal_strlit("4");
        reveal_strlit("5");
        reveal_strlit("6");
        reveal_strlit("7");
        reveal_strlit("8");
        reveal_strlit("9");
    }
    if d == 0 {
        "0"
    } else if d == 1 {
        "1"
    } else if d == 2 {
        "2"
    } else if d == 3 {
        "3"
    } else if d == 4 {
        "4"
    } else if d == 5 {
        "5"
    } else if d == 6 {
        "6"
    } else if d == 7 {
        "7"
    } else if d == 8 {
        "8"
    } else {
        "9"
    }
}

/// Appends `n` in decimal to `s`.
fn push_decimal(s: &mut String, n: usize)
    ensures
        final(s)@ == old(s)@ + decimal(n as nat),
    decreases n,
{
    if n >= 10 {
        push_decimal(s, n / 10);
    }
    s.append(digit_str(n % 10));
    proof {
        reveal_with_fuel(decimal, 1);
        if n >= 10 {
            assert(decimal(n as nat) == decimal((n / 10) as nat).push(digit_char((n % 10) as int)));
        }
    }
}

/// Number of decimal digits of `n`.
pub fn decimal_len(n: usize) -> (r: usize)
    ensures
        r == decimal(n as nat).len(),
    decreases n,
{
    reveal_with_fuel(decimal, 1);
    if n < 10 {
        1
    } else {
        let k = decimal_len(n / 10);
        proof {
            assert(decimal(n as nat).len() == decimal((n / 10) as nat).len() + 1);
            lemma_decimal_len_bound((n / 10) as nat);
        }
        k + 1
    }
}

pub proof fn lemma_decimal_len_bound(n: nat)
    ensures
        decimal(n).len() <= if n == 0 {
            1
        } else {
            n
        },
    decreases n,
{
    if n >= 10 {
        lemma_decimal_len_bound(n / 10);
    }
}

/// `n` in decimal, right-justified in a field of `width` characters.
pub fn render_field(n: usize, width: usize) -> (r: String)
    ensures
        r@ == rendered_field(n as nat, width as int),
{
    let len = decimal_len(n);
    let mut s = String::new();
    let mut pad: usize = 0;
    let fill: usize = if width > len {
        width - len
    } else {
        0
    };
    while pad < fill
        invariant
            pad <= fill,
            s@ == spaces(pad as int),
        decreases fill - pad,
    {
        proof {
            reveal_strlit(" ");
        }
        s.append(" ");
        pad = pad + 1;
        assert(s@ =~= spaces(pad as int));
    }
    assert(s@ =~= spaces(width - decimal(n as nat).len()));
    push_decimal(&mut s, n);
    s
}

} // verus!
