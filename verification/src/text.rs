//! Numbers in messages.
use vstd::prelude::*;
use vstd::string::StringExecFns;

verus! {

/// The character of a decimal digit.
pub open spec fn digit(d: nat) -> char {
    (d + '0' as nat) as char
}

/// The decimal digits of a number, most significant first.
pub open spec fn decimal(n: nat) -> Seq<char>
    decreases n,
{
    if n < 10 {
        seq![digit(n)]
    } else {
        decimal(n / 10).push(digit(n % 10))
    }
}

fn digit_str(d: usize) -> (r: &'static str)
    requires
        d < 10,
    ensures
        r@ == seq![digit(d as nat)],
{
    proof {
        reveal_strlit("0");
        reveal_strlit("1");
        reveal_strlit("2");
        reveal_strlit("3");
        reveal_strlit("4");
        reveal_strlit("5");
        reveal_strlit("6");
        reveal_strlit("7");
        reveal_strlit("8");
        reveal_strlit("9");
    }
    let r = match d {
        0 => "0",
        1 => "1",
        2 => "2",
        3 => "3",
        4 => "4",
        5 => "5",
        6 => "6",
        7 => "7",
        8 => "8",
        _ => "9",
    };
    assert(r@ =~= seq![digit(d as nat)]);
    r
}

/// Appends the digits of a number to a message.
fn push_decimal(message: &mut String, n: usize)
    ensures
        final(message)@ == old(message)@ + decimal(n as nat),
    decreases n,
{
    if n >= 10 {
        push_decimal(message, n / 10);
    }
    message.append(digit_str(n % 10));
    assert(message@ =~= old(message)@ + decimal(n as nat));
}

/// A message, followed by a number.
pub fn with_number(message: String, n: usize) -> (r: String)
    ensures
        r@ == message@ + decimal(n as nat),
{
    let mut r = message;
    push_decimal(&mut r, n);
    r
}

/// A message, followed by a text.
pub fn with_text(message: String, text: &str) -> (r: String)
    ensures
        r@ == message@ + text@,
{
    let mut r = message;
    r.append(text);
    r
}

/// A message that is a text.
pub fn message(text: &str) -> (r: String)
    ensures
        r@ == text@,
{
    String::from_str(text)
}

/// The number that a text of decimal digits is read as.
pub open spec fn number_read(s: Seq<char>) -> int
    decreases s.len(),
{
    if s.len() == 0 {
        0
    } else {
        10 * number_read(s.drop_last()) + (s.last() as int - '0' as int)
    }
}

/// The text is the number `n` in decimal notation: it consists of digits, at least one and without
/// a leading zero, and is read as the number.
pub open spec fn writes(s: Seq<char>, n: int) -> bool {
    &&& number_read(s) == n
    &&& s.len() > 0
    &&& forall|i: int| 0 <= i < s.len() ==> '0' <= #[trigger] s[i] <= '9'
    &&& n > 0 ==> s[0] != '0'
    &&& n < 10 ==> s.len() == 1
}

/// A number in a message is read back as it was written.
pub proof fn law_decimal(n: nat)
    ensures
        writes(decimal(n), n as int),
    decreases n,
{
    let s = decimal(n);
    if n < 10 {
        assert(s.drop_last() =~= Seq::<char>::empty());
        assert(number_read(s.drop_last()) == 0);
        assert(s.last() == digit(n));
    } else {
        law_decimal(n / 10);
        assert(s.drop_last() =~= decimal(n / 10));
        assert(s.last() == digit(n % 10));
        assert(s[0] == decimal(n / 10)[0]);
    }
}

} // verus!
