//! How the ends of a channel are printed.
use vstd::arithmetic::div_mod::lemma_div_denominator;
use vstd::arithmetic::power::{lemma_pow0, lemma_pow_positive, pow};
use vstd::prelude::*;
use vstd::string::*;

verus! {

/// The decimal digit of `d`.
pub open spec fn digit(d: nat) -> char
    recommends
        d < 10,
{
    (48 + d) as char
}

/// The decimal digits of `n`, without leading zeros.
pub open spec fn digits(n: nat) -> Seq<char>
    decreases n,
{
    if n < 10 {
        seq![digit(n)]
    } else {
        digits(n / 10).push(digit(n % 10))
    }
}

/// `n` in decimal notation.
pub open spec fn decimal(n: int) -> Seq<char> {
    if n < 0 {
        seq!['-'] + digits((-n) as nat)
    } else {
        digits(n as nat)
    }
}

/// How an end named `name` with file descriptor `fd` is printed.
pub open spec fn end_text(name: Seq<char>, fd: int) -> Seq<char> {
    name + " { fd: "@ + decimal(fd) + " }"@
}

/// How an end named `name` with file descriptor `fd` is printed over several lines.
pub open spec fn end_text_alternate(name: Seq<char>, fd: int) -> Seq<char> {
    name + " {\n    fd: "@ + decimal(fd) + ",\n}"@
}

/// The number that a sequence of decimal digits stands for.
pub open spec fn digits_value(s: Seq<char>) -> int
    decreases s.len(),
{
    if s.len() == 0 {
        0
    } else {
        10 * digits_value(s.drop_last()) + (s.last() as int - '0' as int)
    }
}

/// The number that a numeral stands for: digits, with a minus sign before them if the
/// number is negative.
pub open spec fn numeral_value(s: Seq<char>) -> int {
    if s.len() > 0 && s[0] == '-' {
        -digits_value(s.drop_first())
    } else {
        digits_value(s)
    }
}

proof fn lemma_digits(n: nat)
    ensures
        digits(n).len() > 0,
        n < pow(10, digits(n).len()),
        digits(n).len() > 1 ==> n >= pow(10, (digits(n).len() - 1) as nat),
        forall|j: int|
            0 <= j < digits(n).len() ==> (#[trigger] digits(n)[j]) as int == '0' as int + (n as int / pow(
                10,
                (digits(n).len() - 1 - j) as nat,
            )) % 10,
        digits_value(digits(n)) == n,
    decreases n,
{
    let s = digits(n);
    lemma_pow0(10);
    if n < 10 {
        assert(pow(10, 1) == 10) by {
            reveal_with_fuel(pow, 2);
        }
        reveal_with_fuel(digits_value, 2);
        assert forall|j: int| 0 <= j < s.len() implies (#[trigger] s[j]) as int == '0' as int + (n as int
            / pow(10, (s.len() - 1 - j) as nat)) % 10 by {
            assert(j == 0);
        }
    } else {
        let t = digits(n / 10);
        lemma_digits(n / 10);
        assert(s.drop_last() == t);
        assert(pow(10, s.len()) == 10 * pow(10, t.len())) by {
            reveal_with_fuel(pow, 2);
        }
        if t.len() > 1 {
            assert(pow(10, t.len()) == 10 * pow(10, (t.len() - 1) as nat)) by {
                reveal_with_fuel(pow, 2);
            }
        } else {
            assert(pow(10, 1) == 10) by {
                reveal_with_fuel(pow, 2);
            }
        }
        assert forall|j: int| 0 <= j < s.len() implies (#[trigger] s[j]) as int == '0' as int + (n as int
            / pow(10, (s.len() - 1 - j) as nat)) % 10 by {
            if j < t.len() {
                assert(s[j] == t[j]);
                let e = (t.len() - 1 - j) as nat;
                lemma_pow_positive(10, e);
                assert(pow(10, e + 1) == 10 * pow(10, e)) by {
                    reveal_with_fuel(pow, 2);
                }
                assert((s.len() - 1 - j) as nat == e + 1);
                lemma_div_denominator(n as int, 10, pow(10, e));
            } else {
                assert(s[j] == digit(n % 10));
                assert((s.len() - 1 - j) as nat == 0);
                assert(n as int / 1 == n);
            }
        }
    }
}

proof fn lemma_decimal(n: int)
    ensures
        decimal(n).len() > 0,
        numeral_value(decimal(n)) == n,
        ({
            let numeral = decimal(n);
            let sign: nat = if n < 0 {
                1
            } else {
                0
            };
            let size = if n < 0 {
                -n
            } else {
                n
            };
            let len = (numeral.len() - sign) as nat;
            &&& n < 0 ==> numeral[0] == '-'
            &&& len > 0
            &&& size < pow(10, len)
            &&& len > 1 ==> size >= pow(10, (len - 1) as nat)
            &&& forall|j: int|
                sign <= j < numeral.len() ==> (#[trigger] numeral[j]) as int == '0' as int + (size
                    / pow(10, (numeral.len() - 1 - j) as nat)) % 10
        }),
{
    if n < 0 {
        lemma_digits((-n) as nat);
        assert(decimal(n).drop_first() == digits((-n) as nat));
        assert forall|j: int| 1 <= j < decimal(n).len() implies (#[trigger] decimal(n)[j]) as int
            == '0' as int + ((-n) / pow(10, (decimal(n).len() - 1 - j) as nat)) % 10 by {
            assert(decimal(n)[j] == digits((-n) as nat)[j - 1]);
        }
    } else {
        lemma_digits(n as nat);
        assert(digits(n as nat)[0] as int >= '0' as int);
    }
}

/// Reading a numeral goes by the value of its digits, the last of which counts once
/// and the others ten times what they count without it.
pub proof fn law_numeral_is_read_by_place(s: Seq<char>, d: char)
    requires
        '0' <= d <= '9',
    ensures
        digits_value(seq![d]) == d as int - '0' as int,
        digits_value(s.push(d)) == 10 * digits_value(s) + digits_value(seq![d]),
        numeral_value(seq!['-'] + s) == -digits_value(s),
        numeral_value(seq![d] + s) == digits_value(seq![d] + s),
{
    reveal_with_fuel(digits_value, 2);
    assert(seq![d].drop_last() == Seq::<char>::empty());
    assert(s.push(d).drop_last() == s);
    assert((seq!['-'] + s).drop_first() == s);
}

/// The one-line text of an end is its name, ` { fd: `, a numeral and ` }`. The numeral
/// reads back as the file descriptor; its characters are a minus sign, if the
/// descriptor is negative, and the decimal digits, with no zero in front.
pub proof fn law_text_holds_descriptor(name: Seq<char>, fd: int)
    ensures
        ({
            let text = end_text(name, fd);
            let numeral = text.subrange(name.len() as int + 7, text.len() - 2);
            let sign: nat = if fd < 0 {
                1
            } else {
                0
            };
            let size = if fd < 0 {
                -fd
            } else {
                fd
            };
            let len = (numeral.len() - sign) as nat;
            &&& text.len() > name.len() + 9
            &&& text.take(name.len() as int) == name
            &&& text.subrange(name.len() as int, name.len() as int + 7) == seq![
                ' ',
                '{',
                ' ',
                'f',
                'd',
                ':',
                ' ',
            ]
            &&& text.skip(text.len() - 2) == seq![' ', '}']
            &&& numeral_value(numeral) == fd
            &&& fd < 0 ==> numeral[0] == '-'
            &&& len > 0
            &&& size < pow(10, len)
            &&& len > 1 ==> size >= pow(10, (len - 1) as nat)
            &&& forall|j: int|
                sign <= j < numeral.len() ==> (#[trigger] numeral[j]) as int == '0' as int + (size
                    / pow(10, (numeral.len() - 1 - j) as nat)) % 10
        }),
{
    reveal_strlit(" { fd: ");
    reveal_strlit(" }");
    lemma_decimal(fd);
    let text = end_text(name, fd);
    assert(text.subrange(name.len() as int + 7, text.len() - 2) == decimal(fd));
}

/// The text of an end over several lines is its name, ` {`, a line with ` fd: ` and a
/// numeral, indented by four spaces and ended by a comma, and `}`. The numeral reads
/// back as the file descriptor; its characters are as in the one-line text.
pub proof fn law_alternate_text_holds_descriptor(name: Seq<char>, fd: int)
    ensures
        ({
            let text = end_text_alternate(name, fd);
            let numeral = text.subrange(name.len() as int + 11, text.len() - 3);
            let sign: nat = if fd < 0 {
                1
            } else {
                0
            };
            let size = if fd < 0 {
                -fd
            } else {
                fd
            };
            let len = (numeral.len() - sign) as nat;
            &&& text.len() > name.len() + 14
            &&& text.take(name.len() as int) == name
            &&& text.subrange(name.len() as int, name.len() as int + 11) == seq![
                ' ',
                '{',
                '\n',
                ' ',
                ' ',
                ' ',
                ' ',
                'f',
                'd',
                ':',
                ' ',
            ]
            &&& text.skip(text.len() - 3) == seq![',', '\n', '}']
            &&& numeral_value(numeral) == fd
            &&& fd < 0 ==> numeral[0] == '-'
            &&& len > 0
            &&& size < pow(10, len)
            &&& len > 1 ==> size >= pow(10, (len - 1) as nat)
            &&& forall|j: int|
                sign <= j < numeral.len() ==> (#[trigger] numeral[j]) as int == '0' as int + (size
                    / pow(10, (numeral.len() - 1 - j) as nat)) % 10
        }),
{
    reveal_strlit(" {\n    fd: ");
    reveal_strlit(",\n}");
    lemma_decimal(fd);
    let text = end_text_alternate(name, fd);
    assert(text.subrange(name.len() as int + 11, text.len() - 3) == decimal(fd));
}

/// Two ends of the same kind with different file descriptors never print the same
/// text, in either form.
pub proof fn law_different_descriptors_print_differently(name: Seq<char>, fd1: int, fd2: int)
    requires
        fd1 != fd2,
    ensures
        end_text(name, fd1) != end_text(name, fd2),
        end_text_alternate(name, fd1) != end_text_alternate(name, fd2),
{
    law_text_holds_descriptor(name, fd1);
    law_text_holds_descriptor(name, fd2);
    law_alternate_text_holds_descriptor(name, fd1);
    law_alternate_text_holds_descriptor(name, fd2);
}

/// A sender and a receiver never print the same text, in either form, whatever their
/// file descriptors are.
pub proof fn law_sender_and_receiver_print_differently(fd1: int, fd2: int)
    ensures
        end_text("Sender"@, fd1) != end_text("Receiver"@, fd2),
        end_text_alternate("Sender"@, fd1) != end_text_alternate("Receiver"@, fd2),
{
    reveal_strlit("Sender");
    reveal_strlit("Receiver");
    law_text_holds_descriptor("Sender"@, fd1);
    law_text_holds_descriptor("Receiver"@, fd2);
    law_alternate_text_holds_descriptor("Sender"@, fd1);
    law_alternate_text_holds_descriptor("Receiver"@, fd2);
    assert(end_text("Sender"@, fd1)[0] == end_text("Sender"@, fd1).take(6)[0]);
    assert(end_text("Receiver"@, fd2)[0] == end_text("Receiver"@, fd2).take(8)[0]);
    assert(end_text_alternate("Sender"@, fd1)[0] == end_text_alternate("Sender"@, fd1).take(6)[0]);
    assert(end_text_alternate("Receiver"@, fd2)[0] == end_text_alternate("Receiver"@, fd2).take(
        8,
    )[0]);
}

fn digit_str(d: u32) -> (s: &'static str)
    requires
        d < 10,
    ensures
        s@ == seq![digit(d as nat)],
{
    proof {
        reveal_strlit("0");
        reveal_strlit("1");
        reveal_strlit("2");
        reveal_strlit("3");
        reveal_strlit("4");
        reveal_strlit("5");
        reveal_strlit("6");
        reveal_strlit("7");
        reveal_strlit("8");
        reveal_strlit("9");
    }
    if d == 0 {
        "0"
    } else if d == 1 {
        "1"
    } else if d == 2 {
        "2"
    } else if d == 3 {
        "3"
    } else if d == 4 {
        "4"
    } else if d == 5 {
        "5"
    } else if d == 6 {
        "6"
    } else if d == 7 {
        "7"
    } else if d == 8 {
        "8"
    } else {
        "9"
    }
}

fn append_digits(text: &mut String, n: u32)
    ensures
        final(text)@ == old(text)@ + digits(n as nat),
    decreases n,
{
    if n >= 10 {
        append_digits(text, n / 10);
    }
    text.append(digit_str(n % 10));
}

fn append_decimal(text: &mut String, n: i32)
    ensures
        final(text)@ == old(text)@ + decimal(n as int),
{
    if n < 0 {
        text.append("-");
        proof {
            reveal_strlit("-");
        }
        append_digits(text, (-(n as i64)) as u32);
    } else {
        append_digits(text, n as u32);
    }
}

/// Prints an end named `name` with file descriptor `fd`.
pub(crate) fn end_string(name: &str, fd: i32) -> (text: String)
    ensures
        text@ == end_text(name@, fd as int),
        exists|numeral: Seq<char>| #[trigger]
            numeral_value(numeral) == fd && text@ == name@ + " { fd: "@ + numeral + " }"@,
{
    proof {
        lemma_decimal(fd as int);
    }
    let mut text = String::new();
    text.append(name);
    text.append(" { fd: ");
    append_decimal(&mut text, fd);
    text.append(" }");
    text
}

/// Prints an end named `name` with file descriptor `fd` over several lines.
pub(crate) fn end_string_alternate(name: &str, fd: i32) -> (text: String)
    ensures
        text@ == end_text_alternate(name@, fd as int),
        exists|numeral: Seq<char>| #[trigger]
            numeral_value(numeral) == fd && text@ == name@ + " {\n    fd: "@ + numeral + ",\n}"@,
{
    proof {
        lemma_decimal(fd as int);
    }
    let mut text = String::new();
    text.append(name);
    text.append(" {\n    fd: ");
    append_decimal(&mut text, fd);
    text.append(",\n}");
    text
}

} // verus!
