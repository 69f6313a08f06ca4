//! Decimal and hexadecimal text, and the order of strings by their bytes.
use vstd::prelude::*;
use vstd::utf8::{encode_utf8, encode_utf8_decode_utf8};

verus! {

/// The lower-case digit that stands for a value below sixteen.
pub open spec fn digit_char(d: nat) -> char {
    if d == 0 {
        '0'
    } else if d == 1 {
        '1'
    } else if d == 2 {
        '2'
    } else if d == 3 {
        '3'
    } else if d == 4 {
        '4'
    } else if d == 5 {
        '5'
    } else if d == 6 {
        '6'
    } else if d == 7 {
        '7'
    } else if d == 8 {
        '8'
    } else if d == 9 {
        '9'
    } else if d == 10 {
        'a'
    } else if d == 11 {
        'b'
    } else if d == 12 {
        'c'
    } else if d == 13 {
        'd'
    } else if d == 14 {
        'e'
    } else {
        'f'
    }
}

/// The decimal numeral of a natural number, without leading zeros.
pub open spec fn decimal(n: nat) -> Seq<char>
    decreases n,
{
    if n < 10 {
        seq![digit_char(n)]
    } else {
        decimal(n / 10).push(digit_char(n % 10))
    }
}

/// The decimal numeral of an integer, with a minus sign where it is negative.
pub open spec fn signed_decimal(n: int) -> Seq<char> {
    if n < 0 {
        seq!['-'] + decimal((-n) as nat)
    } else {
        decimal(n as nat)
    }
}

/// Two lower-case hexadecimal digits for each byte.
pub open spec fn hex(bytes: Seq<u8>) -> Seq<char>
    decreases bytes.len(),
{
    if bytes.len() == 0 {
        Seq::empty()
    } else {
        hex(bytes.drop_last()).push(digit_char((bytes.last() / 16) as nat)).push(
            digit_char((bytes.last() % 16) as nat),
        )
    }
}

fn digit(d: u64) -> (text: &'static str)
    requires
        d < 16,
    ensures
        text@ == seq![digit_char(d as nat)],
{
    proof {
        reveal_strlit("0");
        reveal_strlit("1");
        reveal_strlit("2");
        reveal_strlit("3");
        reveal_strlit("4");
        reveal_strlit("5");
        reveal_strlit("6");
        reveal_strlit("7");
        reveal_strlit("8");
        reveal_strlit("9");
        reveal_strlit("a");
        reveal_strlit("b");
        reveal_strlit("c");
        reveal_strlit("d");
        reveal_strlit("e");
        reveal_strlit("f");
    }
    let text: &'static str = if d == 0 {
        "0"
    } else if d == 1 {
        "1"
    } else if d == 2 {
        "2"
    } else if d == 3 {
        "3"
    } else if d == 4 {
        "4"
    } else if d == 5 {
        "5"
    } else if d == 6 {
        "6"
    } else if d == 7 {
        "7"
    } else if d == 8 {
        "8"
    } else if d == 9 {
        "9"
    } else if d == 10 {
        "a"
    } else if d == 11 {
        "b"
    } else if d == 12 {
        "c"
    } else if d == 13 {
        "d"
    } else if d == 14 {
        "e"
    } else {
        "f"
    };
    assert(text@ =~= seq![digit_char(d as nat)]);
    text
}

/// Appends the decimal numeral of `n`.
pub fn append_decimal(out: &mut String, n: u64)
    ensures
        final(out)@ == old(out)@ + decimal(n as nat),
    decreases n,
{
    if n >= 10 {
        append_decimal(out, n / 10);
    }
    let ghost before = out@;
    out.append(digit(n % 10));
    assert(out@ =~= old(out)@ + decimal(n as nat));
}

/// Appends the decimal numeral of a machine-sized count.
pub fn append_count(out: &mut String, n: usize)
    ensures
        final(out)@ == old(out)@ + decimal(n as nat),
{
    append_decimal(out, n as u64)
}

/// Appends the decimal numeral of a signed integer.
pub fn append_signed(out: &mut String, n: i64)
    ensures
        final(out)@ == old(out)@ + signed_decimal(n as int),
{
    if n < 0 {
        proof {
            reveal_strlit("-");
        }
        let magnitude: u64 = if n == i64::MIN {
            0x8000_0000_0000_0000u64
        } else {
            (-n) as u64
        };
        out.append("-");
        append_decimal(out, magnitude);
        assert(magnitude as int == -(n as int));
        assert(out@ =~= old(out)@ + signed_decimal(n as int));
    } else {
        append_decimal(out, n as u64);
    }
}

/// The lower-case hexadecimal text of a byte string.
pub fn hex_text(bytes: &Vec<u8>) -> (text: String)
    ensures
        text@ == hex(bytes@),
{
    let mut text = String::new();
    assert(bytes@.take(0) =~= Seq::<u8>::empty());
    for i in 0..bytes.len()
        invariant
            text@ == hex(bytes@.take(i as int)),
    {
        let ghost before = text@;
        text.append(digit((bytes[i] / 16) as u64));
        text.append(digit((bytes[i] % 16) as u64));
        proof {
            let next = bytes@.take(i + 1);
            assert(next.drop_last() =~= bytes@.take(i as int));
            assert(next.last() == bytes@[i as int]);
            assert(text@ =~= hex(next));
        }
    }
    assert(bytes@.take(bytes@.len() as int) =~= bytes@);
    text
}

/// How one value stands to another in a total order.
#[derive(Clone, Copy, Debug, PartialEq, Eq, Structural)]
pub enum Relation {
    Before,
    Same,
    After,
}

/// The lexicographic order of byte strings.
pub open spec fn bytes_before(a: Seq<u8>, b: Seq<u8>) -> bool
    decreases a.len(),
{
    if b.len() == 0 {
        false
    } else if a.len() == 0 {
        true
    } else if a[0] != b[0] {
        a[0] < b[0]
    } else {
        bytes_before(a.drop_first(), b.drop_first())
    }
}

/// The order of strings: that of their UTF-8 bytes.
pub open spec fn text_before(a: Seq<char>, b: Seq<char>) -> bool {
    bytes_before(encode_utf8(a), encode_utf8(b))
}

/// The lexicographic order relates any two different byte strings, in one direction only.
pub proof fn bytes_before_is_total(a: Seq<u8>, b: Seq<u8>)
    ensures
        !bytes_before(a, a),
        a != b ==> (bytes_before(a, b) <==> !bytes_before(b, a)),
    decreases a.len(),
{
    if a.len() > 0 {
        bytes_before_is_total(a.drop_first(), a.drop_first());
    }
    if a.len() > 0 && b.len() > 0 && a[0] == b[0] {
        bytes_before_is_total(a.drop_first(), b.drop_first());
        if a != b {
            if a.drop_first() == b.drop_first() {
                assert(a =~= seq![a[0]] + a.drop_first());
                assert(b =~= seq![b[0]] + b.drop_first());
            }
        }
    } else if a.len() == 0 && b.len() == 0 {
        assert(a =~= b);
    }
}

/// The lexicographic order is transitive.
pub proof fn bytes_before_is_transitive(a: Seq<u8>, b: Seq<u8>, c: Seq<u8>)
    requires
        bytes_before(a, b),
        bytes_before(b, c),
    ensures
        bytes_before(a, c),
    decreases a.len(),
{
    if a.len() > 0 && a[0] == b[0] && b[0] == c[0] {
        bytes_before_is_transitive(a.drop_first(), b.drop_first(), c.drop_first());
    }
}

/// Strings with the same bytes are the same string.
pub proof fn same_bytes_same_text(a: Seq<char>, b: Seq<char>)
    ensures
        encode_utf8(a) == encode_utf8(b) ==> a == b,
{
    encode_utf8_decode_utf8(a);
    encode_utf8_decode_utf8(b);
}

/// The string order relates any two different strings, in one direction only.
pub proof fn text_before_is_total(a: Seq<char>, b: Seq<char>)
    ensures
        !text_before(a, a),
        a != b ==> (text_before(a, b) <==> !text_before(b, a)),
{
    bytes_before_is_total(encode_utf8(a), encode_utf8(b));
    bytes_before_is_total(encode_utf8(a), encode_utf8(a));
    same_bytes_same_text(a, b);
}

proof fn common_prefix(a: Seq<u8>, b: Seq<u8>, n: int)
    requires
        0 <= n <= a.len(),
        n <= b.len(),
        a.take(n) == b.take(n),
    ensures
        bytes_before(a, b) == bytes_before(a.skip(n), b.skip(n)),
    decreases n,
{
    if n == 0 {
        assert(a.skip(0) =~= a);
        assert(b.skip(0) =~= b);
    } else {
        assert(a[0] == a.take(n)[0]);
        assert(b[0] == b.take(n)[0]);
        let a1 = a.drop_first();
        let b1 = b.drop_first();
        assert(a1.take(n - 1) =~= a.take(n).drop_first());
        assert(b1.take(n - 1) =~= b.take(n).drop_first());
        common_prefix(a1, b1, n - 1);
        assert(a1.skip(n - 1) =~= a.skip(n));
        assert(b1.skip(n - 1) =~= b.skip(n));
    }
}

/// The order of strings is transitive.
pub proof fn text_before_is_transitive(a: Seq<char>, b: Seq<char>, c: Seq<char>)
    requires
        text_before(a, b),
        text_before(b, c),
    ensures
        text_before(a, c),
{
    bytes_before_is_transitive(encode_utf8(a), encode_utf8(b), encode_utf8(c));
}

/// Compares two strings by their bytes.
pub fn text_order(a: &String, b: &String) -> (relation: Relation)
    ensures
        relation is Before <==> text_before(a@, b@),
        relation is After <==> text_before(b@, a@),
        relation is Same <==> a@ == b@,
{
    let x = a.as_str().as_bytes();
    let y = b.as_str().as_bytes();
    proof {
        bytes_before_is_total(x@, y@);
        bytes_before_is_total(y@, x@);
        same_bytes_same_text(a@, b@);
    }
    let mut i: usize = 0;
    while i < x.len() && i < y.len() && x[i] == y[i]
        invariant
            i <= x@.len(),
            i <= y@.len(),
            x@.take(i as int) == y@.take(i as int),
        decreases x@.len() - i,
    {
        assert(x@.take(i + 1) =~= x@.take(i as int).push(x@[i as int]));
        assert(y@.take(i + 1) =~= y@.take(i as int).push(y@[i as int]));
        i += 1;
    }
    proof {
        common_prefix(x@, y@, i as int);
        common_prefix(y@, x@, i as int);
    }
    if i == x.len() && i == y.len() {
        assert(x@.take(i as int) =~= x@);
        assert(y@.take(i as int) =~= y@);
        Relation::Same
    } else if i == x.len() {
        Relation::Before
    } else if i == y.len() {
        Relation::After
    } else if x[i] < y[i] {
        Relation::Before
    } else {
        Relation::After
    }
}

/// The number that a text of decimal digits stands for.
pub open spec fn read_decimal(s: Seq<char>) -> int
    decreases s.len(),
{
    if s.len() == 0 {
        0
    } else {
        10 * read_decimal(s.drop_last()) + (s.last() as int - '0' as int)
    }
}

/// The decimal digits of a number are digits, read back as the number, and do not begin with a zero that
/// could be left out.
pub proof fn decimals_read_back(n: nat)
    ensures
        read_decimal(decimal(n)) == n,
        decimal(n).len() > 0,
        forall|i: int| 0 <= i < decimal(n).len() ==> '0' <= (#[trigger] decimal(n)[i]) <= '9',
        n > 0 ==> decimal(n)[0] != '0',
    decreases n,
{
    reveal_with_fuel(read_decimal, 2);
    if n < 10 {
        assert(decimal(n).drop_last() =~= Seq::<char>::empty());
    } else {
        decimals_read_back(n / 10);
        let front = decimal(n / 10);
        assert(decimal(n).drop_last() =~= front);
        assert(decimal(n)[0] == front[0]);
        assert forall|i: int| 0 <= i < decimal(n).len() implies '0' <= (#[trigger] decimal(n)[i])
            <= '9' by {
            if i < front.len() {
                assert(decimal(n)[i] == front[i]);
            }
        }
    }
}

/// A negative number is its sign and the digits of its size; any other number is its digits.
pub proof fn signed_decimals_have_a_sign(n: int)
    ensures
        n >= 0 ==> read_decimal(signed_decimal(n)) == n && signed_decimal(n)[0] != '-',
        n < 0 ==> signed_decimal(n).len() > 1 && signed_decimal(n)[0] == '-' && read_decimal(
            signed_decimal(n).drop_first(),
        ) == -n,
{
    if n < 0 {
        decimals_read_back((-n) as nat);
        assert(signed_decimal(n).drop_first() =~= decimal((-n) as nat));
    } else {
        decimals_read_back(n as nat);
    }
}

/// The value of a hexadecimal digit in lower case.
pub open spec fn read_hex_digit(c: char) -> int {
    if '0' <= c <= '9' {
        c as int - '0' as int
    } else {
        c as int - 'a' as int + 10
    }
}

/// Every byte gives two hexadecimal digits in lower case, the higher one first, in the order of the bytes.
pub proof fn hex_digits_read_back(bytes: Seq<u8>)
    ensures
        hex(bytes).len() == 2 * bytes.len(),
        forall|i: int|
            0 <= i < bytes.len() ==> 16 * read_hex_digit(hex(bytes)[2 * i]) + read_hex_digit(
                hex(bytes)[2 * i + 1],
            ) == #[trigger] bytes[i],
        forall|i: int|
            0 <= i < hex(bytes).len() ==> ('0' <= (#[trigger] hex(bytes)[i]) <= '9' || 'a'
                <= hex(bytes)[i] <= 'f'),
    decreases bytes.len(),
{
    if bytes.len() > 0 {
        let front = bytes.drop_last();
        hex_digits_read_back(front);
        let n = front.len() as int;
        assert forall|i: int| 0 <= i < bytes.len() implies 16 * read_hex_digit(hex(bytes)[2 * i])
            + read_hex_digit(hex(bytes)[2 * i + 1]) == #[trigger] bytes[i] by {
            if i < n {
                assert(front[i] == bytes[i]);
                assert(hex(bytes)[2 * i] == hex(front)[2 * i]);
                assert(hex(bytes)[2 * i + 1] == hex(front)[2 * i + 1]);
            } else {
                assert(hex(bytes)[2 * n] == digit_char((bytes.last() / 16) as nat));
                assert(hex(bytes)[2 * n + 1] == digit_char((bytes.last() % 16) as nat));
            }
        }
        assert forall|i: int| 0 <= i < hex(bytes).len() implies ('0' <= (#[trigger] hex(bytes)[i])
            <= '9' || 'a' <= hex(bytes)[i] <= 'f') by {
            if i < 2 * n {
                assert(hex(bytes)[i] == hex(front)[i]);
            }
        }
    }
}

/// One list of bytes comes before another exactly where it is a proper beginning of it, or has the smaller
/// byte at the first place at which they differ.
pub proof fn bytes_go_by_the_first_difference(a: Seq<u8>, b: Seq<u8>)
    ensures
        bytes_before(a, b) <==> {
            ||| a.len() < b.len() && b.take(a.len() as int) == a
            ||| exists|i: int|
                0 <= i < a.len() && i < b.len() && #[trigger] a[i] < b[i] && a.take(i) == b.take(i)
        },
    decreases a.len(),
{
    if b.len() > 0 && a.len() == 0 {
        assert(b.take(0) =~= a);
    }
    if b.len() > 0 && a.len() > 0 {
        if a[0] == b[0] {
            let x = a.drop_first();
            let y = b.drop_first();
            bytes_go_by_the_first_difference(x, y);
            if x.len() < y.len() && y.take(x.len() as int) == x {
                assert(b.take(a.len() as int) =~= a) by {
                    assert forall|k: int| 0 <= k < a.len() implies b[k] == a[k] by {
                        if k > 0 {
                            assert(y.take(x.len() as int)[k - 1] == x[k - 1]);
                        }
                    }
                }
            }
            if a.len() < b.len() && b.take(a.len() as int) == a {
                assert(y.take(x.len() as int) =~= x) by {
                    assert forall|k: int| 0 <= k < x.len() implies y[k] == x[k] by {
                        assert(b.take(a.len() as int)[k + 1] == a[k + 1]);
                    }
                }
            }
            if exists|i: int|
                0 <= i < x.len() && i < y.len() && #[trigger] x[i] < y[i] && x.take(i) == y.take(i) {
                let i = choose|i: int|
                    0 <= i < x.len() && i < y.len() && #[trigger] x[i] < y[i] && x.take(i)
                        == y.take(i);
                assert(a[i + 1] < b[i + 1]);
                assert(a.take(i + 1) =~= b.take(i + 1)) by {
                    assert forall|k: int| 0 <= k < i + 1 implies a[k] == b[k] by {
                        if k > 0 {
                            assert(x.take(i)[k - 1] == y.take(i)[k - 1]);
                        }
                    }
                }
            }
            if exists|i: int|
                0 <= i < a.len() && i < b.len() && #[trigger] a[i] < b[i] && a.take(i) == b.take(i) {
                let i = choose|i: int|
                    0 <= i < a.len() && i < b.len() && #[trigger] a[i] < b[i] && a.take(i)
                        == b.take(i);
                assert(i > 0);
                assert(x[i - 1] < y[i - 1]);
                assert(x.take(i - 1) =~= y.take(i - 1)) by {
                    assert forall|k: int| 0 <= k < i - 1 implies x[k] == y[k] by {
                        assert(a.take(i)[k + 1] == b.take(i)[k + 1]);
                    }
                }
            }
        } else {
            if a[0] < b[0] {
                assert(a.take(0) =~= b.take(0));
            } else {
                if a.len() < b.len() && b.take(a.len() as int) == a {
                    assert(b.take(a.len() as int)[0] == a[0]);
                }
                assert forall|i: int| 0 <= i < a.len() && i < b.len() && #[trigger] a[i]
                    < b[i] implies a.take(i) != b.take(i) by {
                    assert(i > 0);
                    assert(a.take(i)[0] != b.take(i)[0]);
                }
            }
        }
    }
}

} // verus!
