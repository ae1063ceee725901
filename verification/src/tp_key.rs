//! Keys of tensor-parallel cohorts: a logical prefix, the rank and the number of ranks.
use vstd::prelude::*;
use vstd::string::*;

use crate::text::{
    append_decimal, decimal, digit_char, is_digit, lemma_decimal_digits, lemma_decimal_small,
    parse_small_decimal,
};

verus! {

/// The largest cohort that a key can name.
pub const MAX_INFERRED_TP_COHORT_SIZE: usize = 256;

/// What the suffix of a key tells.
#[derive(Clone, Copy, Debug, PartialEq, Eq)]
pub struct InferredTpKey<'a> {
    pub logical_prefix: &'a str,
    pub rank: usize,
    pub size: usize,
}

/// The key of one rank of a cohort.
pub open spec fn tp_key(prefix: Seq<char>, rank: nat, size: nat) -> Seq<char> {
    prefix.push('_') + decimal(rank) + seq!['_'] + decimal(size)
}

/// A prefix, rank and size that a key may be made of.
pub open spec fn tp_parts(prefix: Seq<char>, rank: nat, size: nat) -> bool {
    &&& prefix.len() > 0
    &&& 1 <= size <= MAX_INFERRED_TP_COHORT_SIZE
    &&& rank < size
}

/// The key names this rank of this cohort.
pub open spec fn is_tp_key(key: Seq<char>, prefix: Seq<char>, rank: nat, size: nat) -> bool {
    tp_parts(prefix, rank, size) && key == tp_key(prefix, rank, size)
}

/// `at` is the last underscore before position `end`.
spec fn last_underscore(key: Seq<char>, end: int, at: int) -> bool {
    &&& 0 <= at < end <= key.len()
    &&& key[at] == '_'
    &&& forall|i: int| at < i < end ==> key[i] != '_'
}

fn find_last_underscore(key: &str, end: usize) -> (r: Option<usize>)
    requires
        end <= key@.len(),
    ensures
        match r {
            Some(at) => last_underscore(key@, end as int, at as int),
            None => forall|i: int| 0 <= i < end ==> key@[i] != '_',
        },
{
    let mut i: usize = end;
    while i > 0
        invariant
            i <= end <= key@.len(),
            forall|j: int| i <= j < end ==> key@[j] != '_',
        decreases i,
    {
        i -= 1;
        if key.get_char(i) == '_' {
            return Some(i);
        }
    }
    None
}

/// The underscores of a key stand where its parts meet.
proof fn lemma_tp_key_underscores(prefix: Seq<char>, rank: nat, size: nat)
    ensures
        ({
            let key = tp_key(prefix, rank, size);
            let p = prefix.len() as int;
            let r = decimal(rank).len() as int;
            &&& last_underscore(key, key.len() as int, p + 1 + r)
            &&& last_underscore(key, p + 1 + r, p)
            &&& key.subrange(0, p) == prefix
            &&& key.subrange(p + 1, p + 1 + r) == decimal(rank)
            &&& key.subrange(p + 2 + r, key.len() as int) == decimal(size)
        }),
{
    let key = tp_key(prefix, rank, size);
    let p = prefix.len() as int;
    let r = decimal(rank).len() as int;
    let s = decimal(size).len() as int;
    lemma_decimal_digits(rank);
    lemma_decimal_digits(size);
    assert(key.len() == p + 2 + r + s);
    assert forall|i: int| p + 1 + r < i < key.len() implies key[i] != '_' by {
        assert(key[i] == decimal(size)[i - (p + 2 + r)]);
        assert(is_digit(decimal(size)[i - (p + 2 + r)]));
    }
    assert forall|i: int| p < i < p + 1 + r implies key[i] != '_' by {
        assert(key[i] == decimal(rank)[i - (p + 1)]);
        assert(is_digit(decimal(rank)[i - (p + 1)]));
    }
    assert(key[p + 1 + r] == '_');
    assert(key[p] == '_');
    assert(key.subrange(0, p) =~= prefix);
    assert(key.subrange(p + 1, p + 1 + r) =~= decimal(rank));
    assert(key.subrange(p + 2 + r, key.len() as int) =~= decimal(size));
}

/// A key is made of one prefix, rank and size only.
pub proof fn tp_key_parts_are_unique(
    p1: Seq<char>,
    r1: nat,
    s1: nat,
    p2: Seq<char>,
    r2: nat,
    s2: nat,
)
    requires
        tp_parts(p1, r1, s1),
        tp_parts(p2, r2, s2),
        tp_key(p1, r1, s1) == tp_key(p2, r2, s2),
    ensures
        p1 == p2,
        r1 == r2,
        s1 == s2,
{
    lemma_tp_key_underscores(p1, r1, s1);
    lemma_tp_key_underscores(p2, r2, s2);
    let key = tp_key(p1, r1, s1);
    let a1 = p1.len() + 1 + decimal(r1).len();
    let a2 = p2.len() + 1 + decimal(r2).len();
    assert(a1 == a2) by {
        if a1 < a2 {
            assert(key[a2 as int] != '_');
        } else if a2 < a1 {
            assert(key[a1 as int] != '_');
        }
    }
    assert(p1.len() == p2.len()) by {
        if p1.len() < p2.len() {
            assert(key[p2.len() as int] != '_');
        } else if p2.len() < p1.len() {
            assert(key[p1.len() as int] != '_');
        }
    }
    lemma_small_decimal_injective(r1, r2);
    lemma_small_decimal_injective(s1, s2);
}

proof fn lemma_small_decimal_injective(a: nat, b: nat)
    requires
        a < 1000,
        b < 1000,
        decimal(a) == decimal(b),
    ensures
        a == b,
{
    lemma_decimal_small(a);
    lemma_decimal_small(b);
    assert(a < 10 ==> decimal(a).len() == 1);
    assert(10 <= a < 100 ==> decimal(a).len() == 2);
    assert(100 <= a ==> decimal(a).len() == 3);
    assert(b < 10 ==> decimal(b).len() == 1);
    assert(10 <= b < 100 ==> decimal(b).len() == 2);
    assert(100 <= b ==> decimal(b).len() == 3);
    assert(forall|x: int| 0 <= x < 10 ==> #[trigger] digit_char(x) as int == 48 + x);
    assert(decimal(a)[0] == decimal(b)[0]);
    if a < 10 {
        assert(decimal(a)[0] == digit_char(a as int));
        assert(decimal(b)[0] == digit_char(b as int));
    }
    if 10 <= a < 100 {
        assert(10 <= b < 100);
        assert(decimal(a)[1] == decimal(b)[1]);
        assert(digit_char((a / 10) as int) == digit_char((b / 10) as int));
        assert(digit_char((a % 10) as int) == digit_char((b % 10) as int));
        assert(a == 10 * (a / 10) + a % 10);
        assert(b == 10 * (b / 10) + b % 10);
    } else if 100 <= a {
        assert(100 <= b);
        assert(decimal(a)[1] == decimal(b)[1]);
        assert(decimal(a)[2] == decimal(b)[2]);
        assert(digit_char((a / 100) as int) == digit_char((b / 100) as int));
        assert(digit_char((a / 10 % 10) as int) == digit_char((b / 10 % 10) as int));
        assert(digit_char((a % 10) as int) == digit_char((b % 10) as int));
        assert(a == 100 * (a / 100) + 10 * (a / 10 % 10) + a % 10);
        assert(b == 100 * (b / 100) + 10 * (b / 10 % 10) + b % 10);
    }
}

/// Takes a key apart that ends in `_<rank>_<size>`, both without leading zeros, with a rank below
/// the size and a size of at most [`MAX_INFERRED_TP_COHORT_SIZE`].
pub fn infer_sglang_tp_key<'a>(key: &'a str) -> (r: Option<InferredTpKey<'a>>)
    ensures
        match r {
            Some(k) => is_tp_key(key@, k.logical_prefix@, k.rank as nat, k.size as nat),
            None => forall|prefix: Seq<char>, rank: nat, size: nat|
                !#[trigger] is_tp_key(key@, prefix, rank, size),
        },
{
    let n: usize = key.unicode_len();
    let second: usize = match find_last_underscore(key, n) {
        Some(at) => at,
        None => {
            proof {
                assert forall|prefix: Seq<char>, rank: nat, size: nat|
                    !#[trigger] is_tp_key(key@, prefix, rank, size) by {
                    if is_tp_key(key@, prefix, rank, size) {
                        lemma_tp_key_underscores(prefix, rank, size);
                        assert(key@[prefix.len() as int] == '_');
                    }
                }
            }
            return None;
        },
    };
    let first: usize = match find_last_underscore(key, second) {
        Some(at) => at,
        None => {
            proof {
                assert forall|prefix: Seq<char>, rank: nat, size: nat|
                    !#[trigger] is_tp_key(key@, prefix, rank, size) by {
                    if is_tp_key(key@, prefix, rank, size) {
                        lemma_tp_key_split(key@, second as int, 0, prefix, rank, size);
                        assert(key@[prefix.len() as int] == '_');
                    }
                }
            }
            return None;
        },
    };
    proof {
        assert forall|prefix: Seq<char>, rank: nat, size: nat| #[trigger]
            is_tp_key(key@, prefix, rank, size) implies {
            &&& prefix == key@.subrange(0, first as int)
            &&& decimal(rank) == key@.subrange(first + 1, second as int)
            &&& decimal(size) == key@.subrange(second + 1, n as int)
            &&& prefix.len() == first
        } by {
            lemma_tp_key_split(key@, second as int, first as int, prefix, rank, size);
        }
    }
    if first == 0 {
        return None;
    }
    let rank: usize = match parse_small_decimal(key, first + 1, second) {
        Some(v) => v as usize,
        None => {
            return None;
        },
    };
    let size: usize = match parse_small_decimal(key, second + 1, n) {
        Some(v) => v as usize,
        None => {
            return None;
        },
    };
    if size == 0 || size > MAX_INFERRED_TP_COHORT_SIZE || rank >= size {
        proof {
            assert forall|prefix: Seq<char>, r: nat, s: nat|
                !#[trigger] is_tp_key(key@, prefix, r, s) by {
                if is_tp_key(key@, prefix, r, s) {
                    lemma_small_decimal_injective(r, rank as nat);
                    lemma_small_decimal_injective(s, size as nat);
                }
            }
        }
        return None;
    }
    let logical_prefix = key.substring_char(0, first);
    assert(key@ =~= tp_key(logical_prefix@, rank as nat, size as nat)) by {
        let whole = tp_key(logical_prefix@, rank as nat, size as nat);
        assert(whole.len() == n);
        assert forall|i: int| 0 <= i < n implies key@[i] == whole[i] by {
            if i < first {
                assert(key@.subrange(0, first as int)[i] == key@[i]);
            } else if first < i < second {
                assert(key@.subrange(first + 1, second as int)[i - first - 1] == key@[i]);
            } else if i > second {
                assert(key@.subrange(second + 1, n as int)[i - second - 1] == key@[i]);
            }
        }
    }
    Some(InferredTpKey { logical_prefix, rank, size })
}

/// Where the last two underscores of a key are, its parts end.
proof fn lemma_tp_key_split(
    key: Seq<char>,
    second: int,
    first: int,
    prefix: Seq<char>,
    rank: nat,
    size: nat,
)
    requires
        key == tp_key(prefix, rank, size),
        last_underscore(key, key.len() as int, second),
    ensures
        prefix.len() < second,
        key[prefix.len() as int] == '_',
        last_underscore(key, second, first) ==> {
            &&& prefix == key.subrange(0, first)
            &&& decimal(rank) == key.subrange(first + 1, second)
            &&& decimal(size) == key.subrange(second + 1, key.len() as int)
            &&& prefix.len() == first
        },
{
    lemma_tp_key_underscores(prefix, rank, size);
    let p = prefix.len() as int;
    let a = p + 1 + decimal(rank).len();
    if a < second {
        assert(key[second] != '_');
    } else if second < a {
        assert(key[a] != '_');
    }
    if last_underscore(key, second, first) {
        if p < first {
            assert(key[first] != '_');
        } else if first < p {
            assert(key[p] != '_');
        }
    }
}

/// Writes the key of one rank of a cohort.
pub fn format_tp_key(prefix: &str, rank: usize, size: usize) -> (r: String)
    ensures
        r@ == tp_key(prefix@, rank as nat, size as nat),
{
    proof {
        reveal_strlit("_");
        assert("_"@ =~= seq!['_']);
    }
    let mut r = prefix.to_owned();
    r.append("_");
    assert(r@ =~= prefix@.push('_'));
    append_decimal(&mut r, rank as u64);
    r.append("_");
    append_decimal(&mut r, size as u64);
    r
}

} // verus!
