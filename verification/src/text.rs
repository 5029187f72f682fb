//! Character sequences: first occurrences, fields between separators, and
//! decimal and hexadecimal numerals.

use vstd::prelude::*;

verus! {

/// The characters of `s`, in order.
pub(crate) fn chars_of(s: &str) -> (v: Vec<char>)
    ensures
        v@ == s@,
{
    let mut v: Vec<char> = Vec::new();
    for c in it: s.chars()
        invariant
            v@ == it.seq().take(it.index() as int),
    {
        v.push(c);
    }
    v
}

/// Index of the first `c` in `s`; `s.len()` when `s` holds no `c`.
pub open spec fn find(s: Seq<char>, c: char) -> int
    decreases s.len(),
{
    if s.len() == 0 || s[0] == c {
        0
    } else {
        1 + find(s.drop_first(), c)
    }
}

/// `find` is in range, nothing before it is `c`, and it points at a `c`
/// unless it is the length.
pub proof fn lemma_find(s: Seq<char>, c: char)
    ensures
        0 <= find(s, c) <= s.len(),
        forall|j: int| 0 <= j < find(s, c) ==> s[j] != c,
        find(s, c) < s.len() ==> s[find(s, c)] == c,
    decreases s.len(),
{
    if s.len() == 0 || s[0] == c {
    } else {
        let t = s.drop_first();
        lemma_find(t, c);
        assert forall|j: int| 0 <= j < find(s, c) implies s[j] != c by {
            if j > 0 {
                assert(s[j] == t[j - 1]);
            }
        }
        assert(find(t, c) < t.len() ==> t[find(t, c)] == s[find(s, c)]);
    }
}

/// The only index with the properties of `lemma_find` is `find` itself.
pub proof fn lemma_find_is(s: Seq<char>, c: char, k: int)
    requires
        0 <= k <= s.len(),
        forall|j: int| 0 <= j < k ==> s[j] != c,
        k < s.len() ==> s[k] == c,
    ensures
        find(s, c) == k,
{
    lemma_find(s, c);
    let f = find(s, c);
    if f < k {
        assert(s[f] != c);
    } else if k < f {
        assert(s[k] != c);
    }
}

/// The fields of `s` between occurrences of `sep`. A sequence without `sep`,
/// the empty one too, is one field.
pub open spec fn split(s: Seq<char>, sep: char) -> Seq<Seq<char>>
    decreases s.len(),
{
    let e = find(s, sep);
    if 0 <= e < s.len() {
        seq![s.take(e)] + split(s.skip(e + 1), sep)
    } else {
        seq![s]
    }
}

/// No field of `split` holds the separator, and there is at least one field.
pub proof fn lemma_split(s: Seq<char>, sep: char)
    ensures
        split(s, sep).len() >= 1,
        forall|i: int, j: int|
            0 <= i < split(s, sep).len() && 0 <= j < split(s, sep)[i].len() ==> split(
                s,
                sep,
            )[i][j] != sep,
    decreases s.len(),
{
    lemma_find(s, sep);
    let e = find(s, sep);
    if 0 <= e < s.len() {
        let rest = split(s.skip(e + 1), sep);
        lemma_split(s.skip(e + 1), sep);
        assert forall|i: int, j: int|
            0 <= i < split(s, sep).len() && 0 <= j < split(s, sep)[i].len() implies split(
            s,
            sep,
        )[i][j] != sep by {
            if i == 0 {
                assert(split(s, sep)[0] == s.take(e));
            } else {
                assert(split(s, sep)[i] == rest[i - 1]);
            }
        }
    } else {
        assert(split(s, sep)[0] == s);
    }
}

/// Position of the first `c` in `s[from..to]`, as an index into `s`; `to` when
/// there is none.
pub(crate) fn find_in(s: &Vec<char>, from: usize, to: usize, c: char) -> (k: usize)
    requires
        from <= to <= s.len(),
    ensures
        from <= k <= to,
        k == from + find(s@.subrange(from as int, to as int), c),
{
    let ghost w = s@.subrange(from as int, to as int);
    let mut k: usize = from;
    while k < to && s[k] != c
        invariant
            from <= k <= to <= s.len(),
            w == s@.subrange(from as int, to as int),
            forall|j: int| 0 <= j < k - from ==> w[j] != c,
        decreases to - k,
    {
        k = k + 1;
    }
    proof {
        lemma_find_is(w, c, k - from);
    }
    k
}

/// The bounds of the fields of `s[from..to]` between occurrences of `sep`,
/// each as a pair of indices into `s`.
pub(crate) fn split_in(s: &Vec<char>, from: usize, to: usize, sep: char) -> (fields: Vec<
    (usize, usize),
>)
    requires
        from <= to <= s.len(),
    ensures
        fields@.len() == split(s@.subrange(from as int, to as int), sep).len(),
        forall|i: int|
            0 <= i < fields@.len() ==> from <= (#[trigger] fields@[i]).0 <= fields@[i].1 <= to,
        forall|i: int|
            0 <= i < fields@.len() ==> s@.subrange(
                (#[trigger] fields@[i]).0 as int,
                fields@[i].1 as int,
            ) == split(s@.subrange(from as int, to as int), sep)[i],
{
    let ghost w = s@.subrange(from as int, to as int);
    let mut fields: Vec<(usize, usize)> = Vec::new();
    let mut p: usize = from;
    let mut open = true;
    while open
        invariant
            from <= p <= to <= s.len(),
            w == s@.subrange(from as int, to as int),
            forall|i: int|
                0 <= i < fields@.len() ==> from <= (#[trigger] fields@[i]).0 <= fields@[i].1 <= to,
            open ==> split(w, sep) == Seq::new(
                fields@.len(),
                |i: int| s@.subrange(fields@[i].0 as int, fields@[i].1 as int),
            ) + split(s@.subrange(p as int, to as int), sep),
            !open ==> split(w, sep) == Seq::new(
                fields@.len(),
                |i: int| s@.subrange(fields@[i].0 as int, fields@[i].1 as int),
            ),
        decreases to - p + (if open { 1int } else { 0int }),
    {
        let ghost rest = s@.subrange(p as int, to as int);
        let ghost before = Seq::new(
            fields@.len(),
            |i: int| s@.subrange(fields@[i].0 as int, fields@[i].1 as int),
        );
        let e = find_in(s, p, to, sep);
        fields.push((p, e));
        let ghost after = Seq::new(
            fields@.len(),
            |i: int| s@.subrange(fields@[i].0 as int, fields@[i].1 as int),
        );
        proof {
            assert(rest.take(e - p) == s@.subrange(p as int, e as int));
            assert(after == before + seq![s@.subrange(p as int, e as int)]);
        }
        if e < to {
            proof {
                assert(rest.skip(e - p + 1) == s@.subrange(e + 1, to as int));
                assert(split(rest, sep) == seq![rest.take(e - p)] + split(
                    rest.skip(e - p + 1),
                    sep,
                ));
            }
            p = e + 1;
        } else {
            proof {
                assert(rest.take(e - p) == rest);
                assert(split(rest, sep) == seq![rest]);
            }
            open = false;
        }
    }
    fields
}

/// `c` is a decimal digit.
pub open spec fn is_digit(c: char) -> bool {
    '0' <= c && c <= '9'
}

/// `c` is a hexadecimal digit, in either case.
pub open spec fn is_hex_digit(c: char) -> bool {
    is_digit(c) || ('a' <= c && c <= 'f') || ('A' <= c && c <= 'F')
}

/// The value of a digit; for a hexadecimal letter, ten and up.
pub open spec fn digit_value(c: char) -> nat {
    if is_digit(c) {
        (c as u32 - '0' as u32) as nat
    } else if 'a' <= c && c <= 'f' {
        (c as u32 - 'a' as u32 + 10) as nat
    } else if 'A' <= c && c <= 'F' {
        (c as u32 - 'A' as u32 + 10) as nat
    } else {
        0
    }
}

/// Every character of `s` is a decimal digit.
pub open spec fn is_digits(s: Seq<char>) -> bool {
    forall|i: int| 0 <= i < s.len() ==> is_digit(#[trigger] s[i])
}

/// Every character of `s` is a hexadecimal digit.
pub open spec fn is_hex_digits(s: Seq<char>) -> bool {
    forall|i: int| 0 <= i < s.len() ==> is_hex_digit(#[trigger] s[i])
}

/// The number that the digits of `s` write in the given base, most
/// significant digit first.
pub open spec fn numeral_value(s: Seq<char>, base: nat) -> nat
    decreases s.len(),
{
    if s.len() == 0 {
        0
    } else {
        numeral_value(s.drop_last(), base) * base + digit_value(s.last())
    }
}

/// A numeral is at least as large as each of its prefixes.
pub proof fn lemma_numeral_prefix(s: Seq<char>, base: nat, k: int)
    requires
        0 <= k <= s.len(),
        base >= 1,
    ensures
        numeral_value(s.take(k), base) <= numeral_value(s, base),
    decreases s.len(),
{
    if k == s.len() {
        assert(s.take(k) == s);
    } else {
        let t = s.drop_last();
        lemma_numeral_prefix(t, base, k);
        assert(t.take(k) == s.take(k));
        assert(numeral_value(t, base) <= numeral_value(t, base) * base) by (nonlinear_arith)
            requires
                base >= 1,
        ;
    }
}

/// The digit that `c` writes in the base, ten or sixteen, if it writes one.
pub(crate) fn digit_of(c: char, base: u64) -> (r: Option<u64>)
    requires
        base == 10 || base == 16,
    ensures
        r is Some <==> (if base == 10 {
            is_digit(c)
        } else {
            is_hex_digit(c)
        }),
        r matches Some(d) ==> d == digit_value(c) && d < base,
{
    if c >= '0' && c <= '9' {
        Some((c as u32 - '0' as u32) as u64)
    } else if base == 16 && c >= 'a' && c <= 'f' {
        Some((c as u32 - 'a' as u32 + 10) as u64)
    } else if base == 16 && c >= 'A' && c <= 'F' {
        Some((c as u32 - 'A' as u32 + 10) as u64)
    } else {
        None
    }
}

/// `s` is a numeral of the base, ten or sixteen.
pub open spec fn is_numeral(s: Seq<char>, base: nat) -> bool {
    if base == 10 {
        is_digits(s)
    } else {
        is_hex_digits(s)
    }
}

/// Reads `s[from..to]` as a numeral of the base with a value of at most
/// `limit`. The empty numeral has the value zero.
pub(crate) fn read_numeral(
    s: &Vec<char>,
    from: usize,
    to: usize,
    base: u64,
    limit: u64,
) -> (r: Option<u64>)
    requires
        from <= to <= s.len(),
        base == 10 || base == 16,
        limit <= 0xffff_ffff,
    ensures
        r is Some <==> is_numeral(s@.subrange(from as int, to as int), base as nat)
            && numeral_value(s@.subrange(from as int, to as int), base as nat) <= limit,
        r matches Some(v) ==> v == numeral_value(
            s@.subrange(from as int, to as int),
            base as nat,
        ),
{
    let ghost w = s@.subrange(from as int, to as int);
    let mut acc: u64 = 0;
    let mut i: usize = from;
    while i < to
        invariant
            from <= i <= to <= s.len(),
            base == 10 || base == 16,
            limit <= 0xffff_ffff,
            w == s@.subrange(from as int, to as int),
            is_numeral(w.take(i - from), base as nat),
            acc == numeral_value(w.take(i - from), base as nat),
            acc <= limit,
        decreases to - i,
    {
        let ghost prefix = w.take(i - from + 1);
        proof {
            assert(prefix.drop_last() == w.take(i - from));
            assert(prefix.last() == s@[i as int]);
        }
        match digit_of(s[i], base) {
            None => {
                proof {
                    assert(w[i - from] == s@[i as int]);
                }
                return None;
            },
            Some(d) => {
                acc = acc * base + d;
                proof {
                    assert forall|j: int| 0 <= j < prefix.len() implies (if base == 10 {
                        is_digit(#[trigger] prefix[j])
                    } else {
                        is_hex_digit(prefix[j])
                    }) by {
                        if j < i - from {
                            assert(prefix[j] == w.take(i - from)[j]);
                        }
                    }
                }
                if acc > limit {
                    proof {
                        lemma_numeral_prefix(w, base as nat, i - from + 1);
                    }
                    return None;
                }
            },
        }
        i = i + 1;
    }
    proof {
        assert(w.take(to - from) == w);
    }
    Some(acc)
}

/// The integer that `s` writes: decimal digits, behind a sign or not, with a
/// value that fits in thirty-two bits.
pub open spec fn integer_of(s: Seq<char>) -> Option<i32> {
    let signed = s.len() > 0 && (s[0] == '-' || s[0] == '+');
    let digits = if signed {
        s.skip(1)
    } else {
        s
    };
    let value = if s.len() > 0 && s[0] == '-' {
        -numeral_value(digits, 10)
    } else {
        numeral_value(digits, 10) as int
    };
    if digits.len() > 0 && is_digits(digits) && -0x8000_0000 <= value <= 0x7fff_ffff {
        Some(value as i32)
    } else {
        None
    }
}

/// Reads `s[from..to]` as an integer.
pub(crate) fn read_integer(s: &Vec<char>, from: usize, to: usize) -> (r: Option<i32>)
    requires
        from <= to <= s.len(),
    ensures
        r == integer_of(s@.subrange(from as int, to as int)),
{
    let ghost w = s@.subrange(from as int, to as int);
    if from == to {
        return None;
    }
    proof {
        assert(w[0] == s@[from as int]);
    }
    let negative = s[from] == '-';
    let start: usize = if negative || s[from] == '+' {
        from + 1
    } else {
        from
    };
    proof {
        if start > from {
            assert(w.skip(1) == s@.subrange(start as int, to as int));
        }
    }
    if start == to {
        return None;
    }
    match read_numeral(s, start, to, 10, 0x8000_0000) {
        Some(v) => {
            if negative {
                Some((-(v as i64)) as i32)
            } else if v <= 0x7fff_ffff {
                Some(v as i32)
            } else {
                None
            }
        },
        None => None,
    }
}

/// Whether `s[from..to]` holds the characters of `t`.
pub(crate) fn equal_in(s: &Vec<char>, from: usize, to: usize, t: &str) -> (b: bool)
    requires
        from <= to <= s.len(),
    ensures
        b == (s@.subrange(from as int, to as int) == t@),
{
    let ghost w = s@.subrange(from as int, to as int);
    let other = chars_of(t);
    if other.len() != to - from {
        return false;
    }
    let mut i: usize = 0;
    while i < other.len()
        invariant
            from <= to <= s.len(),
            other@.len() == to - from,
            other@ == t@,
            i <= other@.len(),
            w == s@.subrange(from as int, to as int),
            forall|j: int| 0 <= j < i ==> w[j] == other@[j],
        decreases other.len() - i,
    {
        if s[from + i] != other[i] {
            proof {
                assert(w[i as int] == s@[from + i]);
            }
            return false;
        }
        proof {
            assert(w[i as int] == s@[from + i]);
        }
        i = i + 1;
    }
    proof {
        assert(w =~= other@);
    }
    true
}

/// Whether every character of `s[from..to]` is a decimal digit.
pub(crate) fn digits_in(s: &Vec<char>, from: usize, to: usize) -> (b: bool)
    requires
        from <= to <= s.len(),
    ensures
        b == is_digits(s@.subrange(from as int, to as int)),
{
    let ghost w = s@.subrange(from as int, to as int);
    let mut i: usize = from;
    while i < to
        invariant
            from <= i <= to <= s.len(),
            w == s@.subrange(from as int, to as int),
            forall|j: int| 0 <= j < i - from ==> is_digit(#[trigger] w[j]),
        decreases to - i,
    {
        if !(s[i] >= '0' && s[i] <= '9') {
            proof {
                assert(w[i - from] == s@[i as int]);
            }
            return false;
        }
        proof {
            assert(w[i - from] == s@[i as int]);
        }
        i = i + 1;
    }
    true
}

/// The character that writes a digit; a lower-case letter from ten on.
pub open spec fn digit_char(d: nat) -> char {
    if d < 10 {
        ('0' as u8 + d as u8) as char
    } else {
        ('a' as u8 + (d - 10) as u8) as char
    }
}

/// The decimal numeral of `n`, without leading zeros.
pub open spec fn decimal_text(n: nat) -> Seq<char>
    decreases n,
{
    if n < 10 {
        seq![digit_char(n)]
    } else {
        decimal_text(n / 10).push(digit_char(n % 10))
    }
}

/// The hexadecimal numeral of `n`, in lower case and without leading zeros.
pub open spec fn hex_text(n: nat) -> Seq<char>
    decreases n,
{
    if n < 16 {
        seq![digit_char(n)]
    } else {
        hex_text(n / 16).push(digit_char(n % 16))
    }
}

/// The decimal numeral of an integer, with a minus sign if it is negative.
pub open spec fn integer_text(i: int) -> Seq<char> {
    if i < 0 {
        seq!['-'] + decimal_text((-i) as nat)
    } else {
        decimal_text(i as nat)
    }
}

/// A decimal numeral is made of digits, has no leading zero unless it is
/// `0`, and is read back as the number that it was written for.
pub proof fn lemma_decimal_text(n: nat)
    ensures
        decimal_text(n).len() >= 1,
        is_digits(decimal_text(n)),
        decimal_text(n).len() == 1 || decimal_text(n)[0] != '0',
        numeral_value(decimal_text(n), 10) == n,
    decreases n,
{
    reveal_with_fuel(numeral_value, 2);
    if n < 10 {
        assert(decimal_text(n).drop_last() == Seq::<char>::empty());
    } else {
        lemma_decimal_text(n / 10);
        let t = decimal_text(n);
        assert(t.drop_last() == decimal_text(n / 10));
        assert(t[0] == decimal_text(n / 10)[0]);
        if decimal_text(n / 10).len() == 1 {
            assert(decimal_text(n / 10) == seq![digit_char(n / 10)]) by {
                if n / 10 >= 10 {
                    lemma_decimal_text(n / 10 / 10);
                }
            }
        }
    }
}

/// A hexadecimal numeral is made of hexadecimal digits and is read back as
/// the number that it was written for.
pub proof fn lemma_hex_text(n: nat)
    ensures
        hex_text(n).len() >= 1,
        is_hex_digits(hex_text(n)),
        numeral_value(hex_text(n), 16) == n,
        n < 0x10000 ==> hex_text(n).len() <= 4,
    decreases n,
{
    reveal_with_fuel(numeral_value, 2);
    if n < 16 {
        assert(hex_text(n).drop_last() == Seq::<char>::empty());
    } else {
        lemma_hex_text(n / 16);
        let t = hex_text(n);
        assert(t.drop_last() == hex_text(n / 16));
        if n < 0x10000 {
            lemma_hex_short(n);
        }
    }
}

/// A number below sixteen to the fourth has at most four hexadecimal
/// digits.
proof fn lemma_hex_short(n: nat)
    requires
        n < 0x10000,
    ensures
        hex_text(n).len() <= 4,
        n < 0x1000 ==> hex_text(n).len() <= 3,
        n < 0x100 ==> hex_text(n).len() <= 2,
        n < 0x10 ==> hex_text(n).len() <= 1,
{
    reveal_with_fuel(hex_text, 5);
}

/// The text of one digit.
pub(crate) fn digit_str(d: u8) -> (s: &'static str)
    requires
        d < 16,
    ensures
        s@ == seq![digit_char(d as nat)],
{
    proof {
        reveal_strlit("0");
        reveal_strlit("1");
        reveal_strlit("2");
        reveal_strlit("3");
        reveal_strlit("4");
        reveal_strlit("5");
        reveal_strlit("6");
        reveal_strlit("7");
        reveal_strlit("8");
        reveal_strlit("9");
        reveal_strlit("a");
        reveal_strlit("b");
        reveal_strlit("c");
        reveal_strlit("d");
        reveal_strlit("e");
        reveal_strlit("f");
    }
    let s = match d {
        0 => "0",
        1 => "1",
        2 => "2",
        3 => "3",
        4 => "4",
        5 => "5",
        6 => "6",
        7 => "7",
        8 => "8",
        9 => "9",
        10 => "a",
        11 => "b",
        12 => "c",
        13 => "d",
        14 => "e",
        _ => "f",
    };
    assert(s@ =~= seq![digit_char(d as nat)]);
    s
}

/// Appends the decimal numeral of `n`.
pub(crate) fn push_decimal(s: &mut String, n: u64)
    ensures
        final(s)@ == old(s)@ + decimal_text(n as nat),
    decreases n,
{
    if n >= 10 {
        push_decimal(s, n / 10);
    }
    s.append(digit_str((n % 10) as u8));
    proof {
        if n >= 10 {
            assert(old(s)@ + decimal_text((n / 10) as nat) + seq![digit_char((n % 10) as nat)]
                =~= old(s)@ + decimal_text(n as nat));
        }
    }
}

/// Appends the hexadecimal numeral of `n`.
pub(crate) fn push_hex(s: &mut String, n: u64)
    ensures
        final(s)@ == old(s)@ + hex_text(n as nat),
    decreases n,
{
    if n >= 16 {
        push_hex(s, n / 16);
    }
    s.append(digit_str((n % 16) as u8));
    proof {
        if n >= 16 {
            assert(old(s)@ + hex_text((n / 16) as nat) + seq![digit_char((n % 16) as nat)]
                =~= old(s)@ + hex_text(n as nat));
        }
    }
}

/// Appends the decimal numeral of an integer.
pub(crate) fn push_integer(s: &mut String, i: i32)
    ensures
        final(s)@ == old(s)@ + integer_text(i as int),
{
    if i < 0 {
        proof {
            reveal_strlit("-");
        }
        s.append("-");
        push_decimal(s, (-(i as i64)) as u64);
        proof {
            assert("-"@ =~= seq!['-']);
            assert(old(s)@ + seq!['-'] + decimal_text((-i) as nat) =~= old(s)@ + integer_text(
                i as int,
            ));
        }
    } else {
        push_decimal(s, i as u64);
    }
}

/// The items one after the other, with the separator between each two.
pub open spec fn joined(items: Seq<Seq<char>>, sep: Seq<char>) -> Seq<char>
    decreases items.len(),
{
    if items.len() == 0 {
        Seq::empty()
    } else if items.len() == 1 {
        items[0]
    } else {
        joined(items.drop_last(), sep) + sep + items.last()
    }
}

/// What `joined` gives for one item more.
pub proof fn lemma_joined_push(items: Seq<Seq<char>>, sep: Seq<char>, item: Seq<char>)
    ensures
        joined(items.push(item), sep) == if items.len() == 0 {
            item
        } else {
            joined(items, sep) + sep + item
        },
{
    assert(items.push(item).drop_last() == items);
}

/// The numerals of the numbers, decimal or hexadecimal.
pub open spec fn numerals_of(numbers: Seq<u16>, hex: bool) -> Seq<Seq<char>> {
    Seq::new(
        numbers.len(),
        |i: int|
            if hex {
                hex_text(numbers[i] as nat)
            } else {
                decimal_text(numbers[i] as nat)
            },
    )
}

/// Appends the numerals of the numbers, with the separator between each
/// two.
pub(crate) fn push_numerals(s: &mut String, numbers: &Vec<u16>, hex: bool, sep: &str)
    ensures
        final(s)@ == old(s)@ + joined(numerals_of(numbers@, hex), sep@),
{
    let ghost items = numerals_of(numbers@, hex);
    let mut i: usize = 0;
    proof {
        assert(items.take(0) == Seq::<Seq<char>>::empty());
        assert(old(s)@ + Seq::<char>::empty() =~= old(s)@);
    }
    while i < numbers.len()
        invariant
            i <= numbers@.len(),
            items == numerals_of(numbers@, hex),
            s@ == old(s)@ + joined(items.take(i as int), sep@),
        decreases numbers.len() - i,
    {
        let ghost before = s@;
        if i > 0 {
            s.append(sep);
        }
        if hex {
            push_hex(s, numbers[i] as u64);
        } else {
            push_decimal(s, numbers[i] as u64);
        }
        proof {
            assert(items.take(i + 1) == items.take(i as int).push(items[i as int]));
            lemma_joined_push(items.take(i as int), sep@, items[i as int]);
            if i == 0 {
                assert(joined(items.take(0), sep@) == Seq::<char>::empty());
                assert(old(s)@ + Seq::<char>::empty() + items[0] =~= old(s)@ + items[0]);
            } else {
                assert(old(s)@ + joined(items.take(i as int), sep@) + sep@ + items[i as int]
                    =~= old(s)@ + (joined(items.take(i as int), sep@) + sep@ + items[i as int]));
            }
        }
        i = i + 1;
    }
    proof {
        assert(items.take(numbers@.len() as int) == items);
    }
}

/// `c` does not occur in `s`.
pub open spec fn free_of(s: Seq<char>, c: char) -> bool {
    forall|j: int| 0 <= j < s.len() ==> s[j] != c
}

/// What `joined` gives for one item more in front.
pub proof fn lemma_joined_first(items: Seq<Seq<char>>, sep: Seq<char>)
    requires
        items.len() >= 2,
    ensures
        joined(items, sep) == items[0] + sep + joined(items.drop_first(), sep),
    decreases items.len(),
{
    let rest = items.drop_first();
    if items.len() == 2 {
        assert(items.drop_last() == seq![items[0]]);
        assert(rest == seq![items[1]]);
        assert(joined(items.drop_last(), sep) == items[0]);
        assert(joined(rest, sep) == items[1]);
    } else {
        let front = items.drop_last();
        lemma_joined_first(front, sep);
        assert(front.drop_first() == rest.drop_last());
        assert(rest.last() == items.last());
        assert(front[0] == items[0]);
        assert(joined(items, sep) == (items[0] + sep + joined(rest.drop_last(), sep)) + sep
            + items.last());
        assert(joined(rest, sep) == joined(rest.drop_last(), sep) + sep + rest.last());
        assert((items[0] + sep + joined(rest.drop_last(), sep)) + sep + items.last() =~= items[0]
            + sep + (joined(rest.drop_last(), sep) + sep + items.last()));
    }
}

/// Items that are joined by a separator which occurs in none of them are
/// the fields between the separators.
pub proof fn lemma_split_joined(items: Seq<Seq<char>>, sep: char)
    requires
        items.len() >= 1,
        forall|i: int| 0 <= i < items.len() ==> free_of(#[trigger] items[i], sep),
    ensures
        split(joined(items, seq![sep]), sep) == items,
    decreases items.len(),
{
    let text = joined(items, seq![sep]);
    assert(free_of(items[0], sep));
    if items.len() == 1 {
        lemma_find_is(items[0], sep, items[0].len() as int);
        assert(split(text, sep) == seq![items[0]]);
        assert(seq![items[0]] =~= items);
    } else {
        let rest = items.drop_first();
        let tail = joined(rest, seq![sep]);
        lemma_joined_first(items, seq![sep]);
        let k = items[0].len() as int;
        assert(text == items[0] + seq![sep] + tail);
        assert(text[k] == sep);
        assert forall|j: int| 0 <= j < k implies text[j] != sep by {
            assert(text[j] == items[0][j]);
        }
        lemma_find_is(text, sep, k);
        assert(text.take(k) =~= items[0]);
        assert(text.skip(k + 1) =~= tail);
        assert forall|i: int| 0 <= i < rest.len() implies free_of(#[trigger] rest[i], sep) by {
            assert(rest[i] == items[i + 1]);
        }
        lemma_split_joined(rest, sep);
        assert(seq![items[0]] + rest =~= items);
    }
}

/// A character that occurs neither in the items nor in the separator does
/// not occur in what they are joined to.
pub proof fn lemma_joined_free(items: Seq<Seq<char>>, sep: Seq<char>, c: char)
    requires
        forall|i: int| 0 <= i < items.len() ==> free_of(#[trigger] items[i], c),
        free_of(sep, c),
    ensures
        free_of(joined(items, sep), c),
    decreases items.len(),
{
    if items.len() == 0 {
    } else if items.len() == 1 {
        assert(free_of(items[0], c));
    } else {
        let front = items.drop_last();
        assert forall|i: int| 0 <= i < front.len() implies free_of(#[trigger] front[i], c) by {
            assert(front[i] == items[i]);
        }
        lemma_joined_free(front, sep, c);
        assert(free_of(items.last(), c));
        let text = joined(items, sep);
        let head = joined(front, sep);
        assert forall|j: int| 0 <= j < text.len() implies text[j] != c by {
            if j < head.len() {
                assert(text[j] == head[j]);
            } else if j < head.len() + sep.len() {
                assert(text[j] == sep[j - head.len()]);
            } else {
                assert(text[j] == items.last()[j - head.len() - sep.len()]);
            }
        }
    }
}

/// `c` stands at `j` and again right after it.
pub open spec fn pair_at(s: Seq<char>, c: char, j: int) -> bool {
    0 <= j && j + 1 < s.len() && s[j] == c && s[j + 1] == c
}

/// Where items that are not empty and free of the separator are joined, the
/// separator never stands twice in a row, nor at either end.
pub proof fn lemma_joined_no_pair(items: Seq<Seq<char>>, sep: char)
    requires
        items.len() >= 1,
        forall|i: int|
            0 <= i < items.len() ==> (#[trigger] items[i]).len() > 0 && free_of(items[i], sep),
    ensures
        joined(items, seq![sep]).len() > 0,
        joined(items, seq![sep])[0] != sep,
        joined(items, seq![sep]).last() != sep,
        forall|j: int| !pair_at(joined(items, seq![sep]), sep, j),
    decreases items.len(),
{
    let text = joined(items, seq![sep]);
    assert(items[0].len() > 0 && free_of(items[0], sep));
    if items.len() == 1 {
        assert forall|j: int| !pair_at(text, sep, j) by {
            if 0 <= j < text.len() {
                assert(text[j] != sep);
            }
        }
    } else {
        let front = items.drop_last();
        let head = joined(front, seq![sep]);
        let last = items.last();
        assert forall|i: int| 0 <= i < front.len() implies (#[trigger] front[i]).len() > 0
            && free_of(front[i], sep) by {
            assert(front[i] == items[i]);
        }
        lemma_joined_no_pair(front, sep);
        assert(last.len() > 0 && free_of(last, sep));
        assert(text == head + seq![sep] + last);
        assert(text[0] == head[0]);
        assert(text.last() == last.last());
        assert forall|j: int| !pair_at(text, sep, j) by {
            if 0 <= j && j + 1 < text.len() {
                if j + 1 < head.len() {
                    assert(text[j] == head[j]);
                    assert(text[j + 1] == head[j + 1]);
                    assert(!pair_at(head, sep, j));
                } else if j + 1 == head.len() {
                    assert(text[j] == head.last());
                } else if j == head.len() {
                    assert(text[j + 1] == last[0]);
                } else {
                    assert(text[j] == last[j - head.len() - 1]);
                }
            }
        }
    }
}

/// The numeral of an integer is read as that integer, and holds digits and
/// at most a minus sign.
pub proof fn lemma_integer_text(i: i32, c: char)
    requires
        !is_digit(c),
        c != '-',
    ensures
        integer_of(integer_text(i as int)) == Some(i),
        integer_text(i as int).len() > 0,
        free_of(integer_text(i as int), c),
{
    let text = integer_text(i as int);
    if i < 0 {
        let digits = decimal_text((-i) as nat);
        lemma_decimal_text((-i) as nat);
        assert(text.skip(1) =~= digits);
        assert(text[0] == '-');
        assert forall|j: int| 0 <= j < text.len() implies text[j] != c by {
            if j > 0 {
                assert(text[j] == digits[j - 1]);
                assert(is_digit(digits[j - 1]));
            }
        }
    } else {
        lemma_decimal_text(i as nat);
        assert(is_digit(text[0]));
        assert forall|j: int| 0 <= j < text.len() implies text[j] != c by {
            assert(is_digit(text[j]));
        }
    }
}

} // verus!
