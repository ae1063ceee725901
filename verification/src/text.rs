//! Decimal numbers and prefixes in strings.
use vstd::prelude::*;
use vstd::string::*;

verus! {

/// The character of a digit.
pub open spec fn digit_char(d: int) -> char {
    ('0' as u8 + d) as char
}

/// A number in decimal notation, without leading zeros.
pub open spec fn decimal(n: nat) -> Seq<char>
    decreases n,
{
    if n < 10 {
        seq![digit_char(n as int)]
    } else {
        decimal(n / 10).push(digit_char((n % 10) as int))
    }
}

/// A character that is a decimal digit.
pub open spec fn is_digit(c: char) -> bool {
    '0' <= c <= '9'
}

/// Decimal notation is made of digits.
pub proof fn lemma_decimal_digits(n: nat)
    ensures
        decimal(n).len() > 0,
        forall|i: int| 0 <= i < decimal(n).len() ==> is_digit(#[trigger] decimal(n)[i]),
    decreases n,
{
    if n >= 10 {
        lemma_decimal_digits(n / 10);
    }
}

/// The length of decimal notation, and its digits, for numbers of up to three digits.
pub proof fn lemma_decimal_small(n: nat)
    ensures
        n < 10 ==> decimal(n) == seq![digit_char(n as int)],
        10 <= n < 100 ==> decimal(n) == seq![
            digit_char((n / 10) as int),
            digit_char((n % 10) as int),
        ],
        100 <= n < 1000 ==> decimal(n) == seq![
            digit_char((n / 100) as int),
            digit_char((n / 10 % 10) as int),
            digit_char((n % 10) as int),
        ],
{
    if 10 <= n < 100 {
        assert(decimal(n / 10) == seq![digit_char((n / 10) as int)]);
        assert(decimal(n) =~= seq![digit_char((n / 10) as int), digit_char((n % 10) as int)]);
    } else if 100 <= n < 1000 {
        let m = n / 10;
        assert(m / 10 == n / 100);
        assert(decimal(m / 10) == seq![digit_char((m / 10) as int)]);
        assert(decimal(m) =~= seq![digit_char((m / 10) as int), digit_char((m % 10) as int)]);
        assert(decimal(n) =~= seq![
            digit_char((n / 100) as int),
            digit_char((n / 10 % 10) as int),
            digit_char((n % 10) as int),
        ]);
    }
}

fn digit_str(d: u64) -> (r: &'static str)
    requires
        d < 10,
    ensures
        r@ == seq![digit_char(d as int)],
{
    proof {
        reveal_strlit("0");
        reveal_strlit("1");
        reveal_strlit("2");
        reveal_strlit("3");
        reveal_strlit("4");
        reveal_strlit("5");
        reveal_strlit("6");
        reveal_strlit("7");
        reveal_strlit("8");
        reveal_strlit("9");
    }
    let r = if d == 0 {
        "0"
    } else if d == 1 {
        "1"
    } else if d == 2 {
        "2"
    } else if d == 3 {
        "3"
    } else if d == 4 {
        "4"
    } else if d == 5 {
        "5"
    } else if d == 6 {
        "6"
    } else if d == 7 {
        "7"
    } else if d == 8 {
        "8"
    } else {
        "9"
    };
    assert(r@ =~= seq![digit_char(d as int)]);
    r
}

/// Decimal notation tells its number.
pub proof fn decimal_notation_tells_its_number(n: nat)
    ensures
        digits_value(decimal(n)) == n,
        n > 0 ==> decimal(n)[0] != '0',
    decreases n,
{
    lemma_decimal_digits(n);
    if n < 10 {
        assert(decimal(n).drop_last() =~= Seq::empty());
        assert(digits_value(Seq::<char>::empty()) == 0);
    } else {
        decimal_notation_tells_its_number(n / 10);
        lemma_decimal_digits(n / 10);
        assert(decimal(n).drop_last() =~= decimal(n / 10));
        assert(decimal(n)[0] == decimal(n / 10)[0]);
    }
}

/// Appends a number in decimal notation.
pub fn append_decimal(s: &mut String, n: u64)
    ensures
        final(s)@ == old(s)@ + decimal(n as nat),
    decreases n,
{
    if n >= 10 {
        append_decimal(s, n / 10);
    }
    let ghost before = s@;
    s.append(digit_str(n % 10));
    proof {
        if n >= 10 {
            assert(s@ =~= old(s)@ + decimal(n as nat));
        }
    }
}

/// The digit that a character is.
fn digit_value(c: char) -> (r: Option<u64>)
    ensures
        match r {
            Some(d) => d < 10 && c == digit_char(d as int),
            None => !is_digit(c),
        },
{
    if '0' <= c && c <= '9' {
        Some((c as u32 - '0' as u32) as u64)
    } else {
        None
    }
}

/// Reads the characters from `from` up to `to` as the decimal notation of a number below one
/// thousand.
pub fn parse_small_decimal(s: &str, from: usize, to: usize) -> (r: Option<u64>)
    requires
        from <= to <= s@.len(),
    ensures
        match r {
            Some(v) => v < 1000 && s@.subrange(from as int, to as int) == decimal(v as nat),
            None => forall|v: nat|
                v < 1000 ==> s@.subrange(from as int, to as int) != #[trigger] decimal(v),
        },
{
    let ghost sub = s@.subrange(from as int, to as int);
    let len: usize = to - from;
    if len == 0 || len > 3 {
        proof {
            assert forall|v: nat| v < 1000 implies sub != #[trigger] decimal(v) by {
                lemma_decimal_small(v);
                assert(1 <= decimal(v).len() <= 3);
                assert(sub.len() == len);
            }
        }
        return None;
    }
    let d0: u64 = match digit_value(s.get_char(from)) {
        Some(d) => d,
        None => {
            proof {
                assert forall|v: nat| v < 1000 implies sub != #[trigger] decimal(v) by {
                    lemma_decimal_digits(v);
                    assert(is_digit(decimal(v)[0]));
                    assert(sub[0] == s@[from as int]);
                }
            }
            return None;
        },
    };
    assert(sub[0] == digit_char(d0 as int));
    if len == 1 {
        proof {
            lemma_decimal_small(d0 as nat);
            assert(sub =~= decimal(d0 as nat));
        }
        return Some(d0);
    }
    if d0 == 0 {
        proof {
            assert forall|v: nat| v < 1000 implies sub != #[trigger] decimal(v) by {
                lemma_decimal_small(v);
                let lead = if v < 10 {
                    v as int
                } else if v < 100 {
                    (v / 10) as int
                } else {
                    (v / 100) as int
                };
                assert(decimal(v)[0] == digit_char(lead));
                assert(digit_char(lead) as int == 48 + lead);
                assert(digit_char(0) as int == 48);
                assert(sub.len() == len);
                if v >= 10 {
                    assert(lead >= 1);
                }
            }
        }
        return None;
    }
    let d1: u64 = match digit_value(s.get_char(from + 1)) {
        Some(d) => d,
        None => {
            proof {
                assert forall|v: nat| v < 1000 implies sub != #[trigger] decimal(v) by {
                    lemma_decimal_digits(v);
                    if sub == decimal(v) {
                        assert(is_digit(decimal(v)[1]));
                        assert(sub[1] == s@[from + 1]);
                    }
                }
            }
            return None;
        },
    };
    assert(sub[1] == digit_char(d1 as int));
    if len == 2 {
        proof {
            lemma_decimal_small((10 * d0 + d1) as nat);
            assert(sub =~= decimal((10 * d0 + d1) as nat));
        }
        return Some(10 * d0 + d1);
    }
    let d2: u64 = match digit_value(s.get_char(from + 2)) {
        Some(d) => d,
        None => {
            proof {
                assert forall|v: nat| v < 1000 implies sub != #[trigger] decimal(v) by {
                    lemma_decimal_digits(v);
                    if sub == decimal(v) {
                        assert(is_digit(decimal(v)[2]));
                        assert(sub[2] == s@[from + 2]);
                    }
                }
            }
            return None;
        },
    };
    assert(sub[2] == digit_char(d2 as int));
    proof {
        let v = (100 * d0 + 10 * d1 + d2) as nat;
        lemma_decimal_small(v);
        assert(v / 100 == d0);
        assert(v / 10 % 10 == d1);
        assert(sub =~= decimal(v));
    }
    Some(100 * d0 + 10 * d1 + d2)
}

/// The number that a sequence of digits denotes.
pub open spec fn digits_value(s: Seq<char>) -> int
    decreases s.len(),
{
    if s.len() == 0 {
        0
    } else {
        10 * digits_value(s.drop_last()) + (s.last() as int - 48)
    }
}

/// All characters are digits.
pub open spec fn all_digits(s: Seq<char>) -> bool {
    forall|i: int| 0 <= i < s.len() ==> is_digit(#[trigger] s[i])
}

/// The text without a sign in front.
pub open spec fn unsigned_part(s: Seq<char>) -> Seq<char> {
    if s.len() > 0 && (s[0] == '-' || s[0] == '+') {
        s.skip(1)
    } else {
        s
    }
}

/// The whole number that a text denotes: digits, with a sign in front if need be. A number that does
/// not fit into 64 bits is none.
pub open spec fn signed_value(s: Seq<char>) -> Option<i64> {
    let body = unsigned_part(s);
    let v = if s.len() > 0 && s[0] == '-' {
        -digits_value(body)
    } else {
        digits_value(body)
    };
    if body.len() == 0 || !all_digits(body) {
        None
    } else if i64::MIN <= v <= i64::MAX {
        Some(v as i64)
    } else {
        None
    }
}

proof fn lemma_value_grows(s: Seq<char>, n: int)
    requires
        0 <= n <= s.len(),
        all_digits(s),
    ensures
        0 <= digits_value(s.take(n)) <= digits_value(s),
    decreases s.len(),
{
    if n == s.len() {
        assert(s.take(n) =~= s);
        if n > 0 {
            assert(is_digit(s[n - 1]));
            lemma_value_grows(s.drop_last(), n - 1);
            assert(s.drop_last().take(n - 1) =~= s.drop_last());
        }
    } else {
        assert(is_digit(s.last()));
        lemma_value_grows(s.drop_last(), n);
        assert(s.drop_last().take(n) =~= s.take(n));
        assert(digits_value(s) >= digits_value(s.drop_last()));
    }
}

/// Reads a whole number.
pub fn parse_i64(s: &str) -> (r: Option<i64>)
    ensures
        r == signed_value(s@),
{
    let len: usize = s.unicode_len();
    if len == 0 {
        return None;
    }
    let first = s.get_char(0);
    let negative = first == '-';
    let from: usize = if negative || first == '+' {
        1
    } else {
        0
    };
    let ghost body = unsigned_part(s@);
    if from == len {
        return None;
    }
    // One more than the largest number, which is the size of the smallest.
    let limit: u64 = 9_223_372_036_854_775_808;
    let mut value: u64 = 0;
    let mut i: usize = from;
    assert(body.take(0).len() == 0);
    while i < len
        invariant
            from <= i <= len,
            len == s@.len(),
            from < len,
            body == unsigned_part(s@),
            limit == 9_223_372_036_854_775_808,
            negative == (s@[0] == '-'),
            from == if s@[0] == '-' || s@[0] == '+' {
                1int
            } else {
                0int
            },
            value <= limit,
            value == digits_value(body.take(i - from)),
            forall|j: int| 0 <= j < i - from ==> is_digit(#[trigger] body[j]),
        decreases len - i,
    {
        let ghost n = i - from;
        assert(s@[i as int] == body[n]);
        let d: u64 = match digit_value(s.get_char(i)) {
            Some(d) => d,
            None => {
                assert(!all_digits(body));
                return None;
            },
        };
        proof {
            assert(body.take(n + 1).drop_last() =~= body.take(n));
            assert(body.take(n + 1).last() == body[n]);
            assert(digit_char(d as int) as int == 48 + d);
        }
        if value > (limit - d) / 10 {
            proof {
                assert(10 * value + d > limit);
                if all_digits(body) {
                    lemma_value_grows(body, n + 1);
                    assert(digits_value(body) > limit);
                }
            }
            return None;
        }
        value = value * 10 + d;
        i += 1;
    }
    assert(body.take(body.len() as int) =~= body);
    if negative {
        if value == limit {
            return Some(i64::MIN);
        }
        let positive: i64 = value as i64;
        return Some(-positive);
    }
    if value == limit {
        return None;
    }
    Some(value as i64)
}

/// `s` begins with `prefix`.
pub open spec fn begins_with(s: Seq<char>, prefix: Seq<char>) -> bool {
    prefix.len() <= s.len() && s.subrange(0, prefix.len() as int) == prefix
}

/// A text begins with a prefix exactly if it is the prefix and something behind it.
pub proof fn a_prefix_is_followed_by_the_rest(prefix: Seq<char>, rest: Seq<char>, s: Seq<char>)
    ensures
        begins_with(prefix + rest, prefix),
        begins_with(s, prefix) ==> s == prefix + s.skip(prefix.len() as int),
        begins_with(s, Seq::<char>::empty()),
        prefix.len() > s.len() ==> !begins_with(s, prefix),
{
    assert((prefix + rest).subrange(0, prefix.len() as int) =~= prefix);
    if begins_with(s, prefix) {
        assert(s =~= s.subrange(0, prefix.len() as int) + s.skip(prefix.len() as int));
    }
    assert(s.subrange(0, 0) =~= Seq::<char>::empty());
}

pub fn starts_with(s: &str, prefix: &str) -> (r: bool)
    ensures
        r == begins_with(s@, prefix@),
{
    let n: usize = prefix.unicode_len();
    if n > s.unicode_len() {
        return false;
    }
    let head = s.substring_char(0, n);
    let same = str_eq(head, prefix);
    same
}

/// The two strings hold the same characters.
pub fn str_eq(a: &str, b: &str) -> (r: bool)
    ensures
        r == (a@ == b@),
{
    a.to_owned() == b.to_owned()
}

/// The name of the file that holds a shard: the number with at least six digits.
pub open spec fn shard_file_chars(shard_id: nat) -> Seq<char> {
    let digits = decimal(shard_id);
    "shard-"@ + Seq::new(
        if digits.len() < 6 {
            (6 - digits.len()) as nat
        } else {
            0
        },
        |i: int| '0',
    ) + digits + ".dat"@
}

/// The name of the file that holds a shard.
pub fn shard_file_name(shard_id: usize) -> (r: String)
    ensures
        r@ == shard_file_chars(shard_id as nat),
{
    let mut digits = String::new();
    append_decimal(&mut digits, shard_id as u64);
    assert(digits@ =~= decimal(shard_id as nat));
    let mut width: usize = digits.as_str().unicode_len();
    let mut r = String::from_str("shard-");
    let ghost start = width as int;
    let ghost head = r@;
    assert(r@ =~= head + Seq::new(0, |i: int| '0'));
    while width < 6
        invariant
            start == decimal(shard_id as nat).len(),
            start <= width,
            width <= 6 || width == start,
            r@ == head + Seq::new((width - start) as nat, |i: int| '0'),
        decreases 6 - width,
    {
        proof {
            reveal_strlit("0");
        }
        let ghost before = r@;
        r.append("0");
        width += 1;
        assert(r@ =~= head + Seq::new((width - start) as nat, |i: int| '0'));
    }
    r.append(digits.as_str());
    r.append(".dat");
    assert(r@ =~= shard_file_chars(shard_id as nat));
    r
}

/// Zeros in front of a number do not change it.
proof fn lemma_leading_zeros(zeros: Seq<char>, digits: Seq<char>)
    requires
        forall|i: int| 0 <= i < zeros.len() ==> #[trigger] zeros[i] == '0',
    ensures
        digits_value(zeros + digits) == digits_value(digits),
    decreases zeros.len() + digits.len(),
{
    if digits.len() > 0 {
        lemma_leading_zeros(zeros, digits.drop_last());
        assert((zeros + digits).drop_last() =~= zeros + digits.drop_last());
    } else if zeros.len() > 0 {
        lemma_leading_zeros(zeros.drop_last(), digits);
        assert((zeros + digits).drop_last() =~= zeros.drop_last() + digits);
        assert(zeros[zeros.len() - 1] == '0');
    }
}

/// Different shards have different files.
pub proof fn shard_files_differ(a: nat, b: nat)
    requires
        shard_file_chars(a) == shard_file_chars(b),
    ensures
        a == b,
{
    let pad = |n: nat|
        Seq::new(
            if decimal(n).len() < 6 {
                (6 - decimal(n).len()) as nat
            } else {
                0
            },
            |i: int| '0',
        );
    let (p, q) = (pad(a) + decimal(a), pad(b) + decimal(b));
    let (f, g) = (shard_file_chars(a), shard_file_chars(b));
    let (head, tail) = ("shard-"@, ".dat"@);
    assert(f =~= head + p + tail);
    assert(g =~= head + q + tail);
    assert(p.len() == q.len());
    assert forall|i: int| 0 <= i < p.len() implies p[i] == q[i] by {
        assert(f[head.len() + i] == p[i]);
        assert(g[head.len() + i] == q[i]);
    }
    assert(p =~= q);
    lemma_leading_zeros(pad(a), decimal(a));
    lemma_leading_zeros(pad(b), decimal(b));
    decimal_notation_tells_its_number(a);
    decimal_notation_tells_its_number(b);
}

} // verus!
