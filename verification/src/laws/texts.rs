//! What texts stand for.
use vstd::prelude::*;
use crate::federation::lines::{lemma_line_feed, lines, without_return};
use crate::net::peer_identity::{hex_digit, hex_of};
use crate::text::{decimal, digit_char, joined};

verus! {

/// What a digit stands for.
pub open spec fn worth(c: char) -> int {
    if 'a' <= c <= 'f' {
        (c as u32) - ('a' as u32) + 10
    } else {
        (c as u32) - ('0' as u32)
    }
}

/// What a row of decimal digits stands for.
pub open spec fn number_of(digits: Seq<char>) -> int
    decreases digits.len(),
{
    if digits.len() == 0 {
        0
    } else {
        10 * number_of(digits.drop_last()) + worth(digits.last())
    }
}

/// Whether a character is a decimal digit.
pub open spec fn is_digit(c: char) -> bool {
    '0' <= c <= '9'
}

proof fn lemma_digit(d: nat)
    requires
        d < 10,
    ensures
        is_digit(digit_char(d)),
        worth(digit_char(d)) == d,
{
    let c = digit_char(d);
    assert(c as u32 == 48 + d);
}

/// The decimal digits of a number stand for it, and there are no more of them
/// than it takes: the first is no zero, but for zero itself.
pub proof fn decimals_stand_for_the_number(n: nat)
    ensures
        number_of(decimal(n)) == n,
        decimal(n).len() > 0,
        forall|i: int| 0 <= i < decimal(n).len() ==> is_digit(#[trigger] decimal(n)[i]),
        n > 0 ==> worth(decimal(n)[0]) > 0,
        n < 10 ==> decimal(n).len() == 1,
    decreases n,
{
    if n < 10 {
        lemma_digit(n);
        let s = decimal(n);
        assert(s.drop_last() =~= Seq::empty());
        assert(number_of(s.drop_last()) == 0);
    } else {
        let h = n / 10;
        decimals_stand_for_the_number(h);
        lemma_digit(n % 10);
        let s = decimal(n);
        assert(s.drop_last() =~= decimal(h));
        assert forall|i: int| 0 <= i < s.len() implies is_digit(#[trigger] s[i]) by {
            if i < decimal(h).len() {
                assert(is_digit(decimal(h)[i]));
            }
        }
        assert(s[0] == decimal(h)[0]);
    }
}

proof fn lemma_hex_digit(d: nat)
    requires
        d < 16,
    ensures
        worth(hex_digit(d)) == d,
{
    let c = hex_digit(d);
    if d < 10 {
        assert(c as u32 == 48 + d);
    } else {
        assert(c as u32 == 97 + (d - 10));
    }
}

/// Each byte reads as two digits, the higher one first.
pub proof fn bytes_read_as_two_digits(bytes: Seq<u8>, i: int)
    requires
        0 <= i < bytes.len(),
    ensures
        hex_of(bytes).len() == 2 * bytes.len(),
        16 * worth(hex_of(bytes)[2 * i]) + worth(hex_of(bytes)[2 * i + 1]) == bytes[i],
{
    let b = bytes[i] as nat;
    assert((2 * i) / 2 == i && (2 * i) % 2 == 0);
    assert((2 * i + 1) / 2 == i && (2 * i + 1) % 2 == 1);
    lemma_hex_digit(b / 16);
    lemma_hex_digit(b % 16);
}

/// A text without a line feed is one line, or none where it is empty; one
/// with a line feed has what stands before it for its first line, and goes on
/// with the lines of what stands behind it.
pub proof fn lines_end_at_line_feeds(a: Seq<char>, b: Seq<char>)
    requires
        forall|i: int| 0 <= i < a.len() ==> #[trigger] a[i] != '\n',
    ensures
        lines(a) == (if a.len() == 0 {
            Seq::empty()
        } else {
            seq![a]
        }),
        lines(a + seq!['\n'] + b) == seq![without_return(a)] + lines(b),
        without_return(a.push('\r')) == a,
{
    lemma_line_feed(a, a.len());
    let text = a + seq!['\n'] + b;
    assert forall|i: int| 0 <= i < a.len() implies text[i] != '\n' by {
        assert(text[i] == a[i]);
    }
    assert(text[a.len() as int] == '\n');
    lemma_line_feed(text, a.len());
    assert(text.take(a.len() as int) =~= a);
    assert(text.skip(a.len() as int + 1) =~= b);
    assert(a.push('\r').drop_last() =~= a);
}

/// Parts that are joined stand one after the other: what is joined of two
/// lists is what is joined of each, with the separator between them.
pub proof fn joining_keeps_the_order(
    a: Seq<Seq<char>>,
    b: Seq<Seq<char>>,
    separator: Seq<char>,
)
    requires
        a.len() > 0,
        b.len() > 0,
    ensures
        joined(a + b, separator) == joined(a, separator) + separator + joined(b, separator),
    decreases b.len(),
{
    let all = a + b;
    assert(all.drop_last() =~= a + b.drop_last());
    assert(all.last() == b.last());
    if b.len() == 1 {
        assert(a + b.drop_last() =~= a);
    } else {
        joining_keeps_the_order(a, b.drop_last(), separator);
        let (x, y) = (joined(a, separator), joined(b.drop_last(), separator));
        assert((x + separator + y) + separator + b.last() =~= x + separator + (y + separator
            + b.last()));
    }
}

} // verus!
