//! Numbers as text.

use vstd::prelude::*;
use vstd::string::*;

verus! {

/// The decimal digit for a number below ten.
pub open spec fn digit(n: nat) -> char {
    ('0' as nat + n) as char
}

/// A number in decimal, without leading zeros.
pub open spec fn decimal(n: nat) -> Seq<char>
    decreases n,
{
    if n < 10 {
        seq![digit(n)]
    } else {
        decimal(n / 10).push(digit(n % 10))
    }
}

/// A text, with spaces put before it until it is `width` characters long.
pub open spec fn right_aligned(text: Seq<char>, width: nat) -> Seq<char> {
    if text.len() < width {
        Seq::new((width - text.len()) as nat, |i: int| ' ') + text
    } else {
        text
    }
}

/// Appends the decimal digit for a number below ten.
fn push_digit(out: &mut String, n: u64)
    requires
        n < 10,
    ensures
        final(out)@ == old(out)@.push(digit(n as nat)),
{
    proof {
        reveal_strlit("0");
        reveal_strlit("1");
        reveal_strlit("2");
        reveal_strlit("3");
        reveal_strlit("4");
        reveal_strlit("5");
        reveal_strlit("6");
        reveal_strlit("7");
        reveal_strlit("8");
        reveal_strlit("9");
    }
    let text = match n {
        0 => "0",
        1 => "1",
        2 => "2",
        3 => "3",
        4 => "4",
        5 => "5",
        6 => "6",
        7 => "7",
        8 => "8",
        _ => "9",
    };
    assert(text@ =~= seq![digit(n as nat)]);
    out.append(text);
    assert(out@ =~= old(out)@.push(digit(n as nat)));
}

/// Appends a number in decimal.
pub fn push_decimal(out: &mut String, n: u64)
    ensures
        final(out)@ == old(out)@ + decimal(n as nat),
    decreases n,
{
    if n >= 10 {
        push_decimal(out, n / 10);
    }
    push_digit(out, n % 10);
    assert(out@ =~= old(out)@ + decimal(n as nat));
}

/// Appends a text, aligned to the right of a column of `width` characters.
pub fn push_right_aligned(out: &mut String, text: &str, width: usize)
    ensures
        final(out)@ == old(out)@ + right_aligned(text@, width as nat),
{
    proof {
        reveal_strlit(" ");
    }
    let len: usize = text.unicode_len();
    let mut column: usize = len;
    while column < width
        invariant
            len == text@.len(),
            len <= column,
            column <= width || column == len,
            " "@ == seq![' '],
            out@ == old(out)@ + Seq::new((column - len) as nat, |i: int| ' '),
        decreases width - column,
    {
        out.append(" ");
        column = column + 1;
        assert(out@ =~= old(out)@ + Seq::new((column - len) as nat, |i: int| ' '));
    }
    out.append(text);
    assert(out@ =~= old(out)@ + right_aligned(text@, width as nat));
}

/// A number in decimal can be read back: it is made of digits, which evaluate in base ten to
/// the number, and begins with a zero only where it is a single digit.
pub proof fn law_decimal_reads_back(n: nat)
    ensures
        decimal(n).len() > 0,
        forall|i: int| 0 <= i < decimal(n).len() ==> '0' <= #[trigger] decimal(n)[i] <= '9',
        decimal(n).fold_left(0int, |v: int, c: char| 10 * v + (c as int - '0' as int)) == n,
        decimal(n).len() > 1 ==> decimal(n)[0] != '0',
    decreases n,
{
    reveal_with_fuel(Seq::fold_left, 2);
    if n >= 10 {
        law_decimal_reads_back(n / 10);
        assert(decimal(n).drop_last() =~= decimal(n / 10));
        if n < 100 {
            assert(decimal(n / 10) =~= seq![digit(n / 10)]);
        }
    } else {
        assert(decimal(n).drop_last() =~= Seq::<char>::empty());
    }
}

/// Two numbers that read the same in decimal are the same.
pub proof fn law_decimal_is_faithful(a: nat, b: nat)
    requires
        decimal(a) == decimal(b),
    ensures
        a == b,
{
    law_decimal_reads_back(a);
    law_decimal_reads_back(b);
}

/// A text that is aligned to the right ends in the text, has nothing but spaces before it,
/// and is no longer than the wider of the text and the column.
pub proof fn law_right_aligned_ends_in_the_text(text: Seq<char>, width: nat)
    ensures
        right_aligned(text, width).len() == (if text.len() < width {
            width
        } else {
            text.len()
        }),
        forall|i: int|
            0 <= i < right_aligned(text, width).len() - text.len() ==> #[trigger] right_aligned(
                text,
                width,
            )[i] == ' ',
        right_aligned(text, width).skip(right_aligned(text, width).len() - text.len()) == text,
{
    assert(right_aligned(text, width).skip(right_aligned(text, width).len() - text.len()) =~= text);
}

/// The text is a number in a column: no shorter than the column, and made of spaces, no more
/// than it takes to fill the column, and behind them of digits that do not begin with a zero
/// unless it is the only one.
pub open spec fn is_column(text: Seq<char>, width: nat) -> bool {
    &&& text.len() >= width
    &&& text.len() > 0
    &&& text.len() > width ==> text[0] != ' '
    &&& '0' <= text.last() <= '9'
    &&& forall|i: int|
        0 <= i < text.len() ==> #[trigger] text[i] == ' ' || '0' <= text[i] <= '9'
    &&& forall|i: int, j: int|
        0 <= i < j < text.len() && (#[trigger] text[j]) == ' ' ==> (#[trigger] text[i]) == ' '
    &&& forall|i: int|
        0 <= i < text.len() - 1 && #[trigger] text[i] == '0' ==> i > 0 && text[i - 1] != ' '
}

/// A number in a column can be read back: it is made of spaces and, behind them, of at least
/// one digit, which evaluate in base ten to the number; and it fills the column.
pub proof fn law_column_reads_back(n: nat, width: nat)
    ensures
        right_aligned(decimal(n), width).len() >= width,
        right_aligned(decimal(n), width).len() > 0,
        is_column(right_aligned(decimal(n), width), width),
        right_aligned(decimal(n), width).fold_left(
            0int,
            |v: int, c: char|
                if c == ' ' {
                    v
                } else {
                    10 * v + (c as int - '0' as int)
                },
        ) == n,
{
    let number = decimal(n);
    let column = right_aligned(number, width);
    law_decimal_reads_back(n);
    law_right_aligned_ends_in_the_text(number, width);
    let spaces = column.len() - number.len();
    assert forall|i: int| spaces <= i < column.len() implies #[trigger] column[i] == number[i
        - spaces] && '0' <= column[i] <= '9' by {
        assert(column[i] == column.skip(spaces)[i - spaces]);
        assert('0' <= number[i - spaces] <= '9');
    }
    assert forall|i: int| 0 <= i < column.len() - 1 && #[trigger] column[i] == '0' implies i > 0
        && column[i - 1] != ' ' by {
        if i > spaces {
            assert('0' <= column[i - 1] <= '9');
        }
    }
    let pad = if number.len() < width {
        (width - number.len()) as nat
    } else {
        0
    };
    assert(column =~= Seq::new(pad, |i: int| ' ') + number);
    lemma_padding_adds_nothing(pad, number);
}

/// Spaces before a number do not change what it evaluates to.
proof fn lemma_padding_adds_nothing(pad: nat, number: Seq<char>)
    requires
        forall|i: int| 0 <= i < number.len() ==> '0' <= #[trigger] number[i] <= '9',
    ensures
        (Seq::new(pad, |i: int| ' ') + number).fold_left(
            0int,
            |v: int, c: char|
                if c == ' ' {
                    v
                } else {
                    10 * v + (c as int - '0' as int)
                },
        ) == number.fold_left(0int, |v: int, c: char| 10 * v + (c as int - '0' as int)),
    decreases pad + number.len(),
{
    reveal_with_fuel(Seq::fold_left, 2);
    let padded = Seq::new(pad, |i: int| ' ') + number;
    if number.len() > 0 {
        let rest = number.drop_last();
        assert(padded.drop_last() =~= Seq::new(pad, |i: int| ' ') + rest);
        assert('0' <= number[number.len() - 1] <= '9');
        assert forall|i: int| 0 <= i < rest.len() implies '0' <= #[trigger] rest[i] <= '9' by {
            assert(rest[i] == number[i]);
        }
        lemma_padding_adds_nothing(pad, rest);
    } else if pad > 0 {
        assert(padded.drop_last() =~= Seq::new((pad - 1) as nat, |i: int| ' ') + number);
        lemma_padding_adds_nothing((pad - 1) as nat, number);
    }
}

/// Where what stands before it is the same, what ends at the first `stop` is the same, and so
/// is what follows.
pub(crate) proof fn lemma_cancel(
    front: Seq<char>,
    f: Seq<char>,
    g: Seq<char>,
    r: Seq<char>,
    s: Seq<char>,
    stop: char,
)
    requires
        front + f + r == front + g + s,
        r.len() > 0,
        s.len() > 0,
        r[0] == stop,
        s[0] == stop,
        forall|i: int| 0 <= i < f.len() ==> #[trigger] f[i] != stop,
        forall|i: int| 0 <= i < g.len() ==> #[trigger] g[i] != stop,
    ensures
        f == g,
        r == s,
{
    let x = front + f + r;
    let y = front + g + s;
    assert(x[(front.len() + f.len()) as int] == stop);
    assert(y[(front.len() + g.len()) as int] == stop);
    if f.len() < g.len() {
        assert(y[(front.len() + f.len()) as int] == g[f.len() as int]);
    } else if g.len() < f.len() {
        assert(x[(front.len() + g.len()) as int] == f[g.len() as int]);
    }
    assert(x.len() == y.len());
    assert forall|i: int| 0 <= i < f.len() implies f[i] == g[i] by {
        assert(x[front.len() + i] == f[i]);
        assert(y[front.len() + i] == g[i]);
    }
    assert forall|i: int| 0 <= i < r.len() implies r[i] == s[i] by {
        assert(x[front.len() + f.len() + i] == r[i]);
        assert(y[front.len() + f.len() + i] == s[i]);
    }
    assert(f =~= g);
    assert(r =~= s);
}

/// Where what stands before it is the same, what follows is the same.
pub(crate) proof fn lemma_cancel_front(front: Seq<char>, r: Seq<char>, s: Seq<char>)
    requires
        front + r == front + s,
    ensures
        r == s,
{
    assert((front + r).skip(front.len() as int) =~= r);
    assert((front + s).skip(front.len() as int) =~= s);
}

} // verus!
