//! The names of chunk files: `chunk_0000.bin`, `chunk_0001.bin` and so on.
use vstd::prelude::*;

use crate::text::{
    all_digits, decimal, digits_value, is_digit, lemma_decimal_spells, lemma_leading_zeros,
    to_chars, to_decimal,
};

verus! {

/// The name of a chunk file: `chunk_`, the number with at least four digits,
/// `.bin`.
pub open spec fn chunk_name_of(id: u32) -> Seq<char> {
    "chunk_"@ + padded(decimal(id as nat)) + ".bin"@
}

/// `s` with zeros before it, up to four characters in all.
pub open spec fn padded(s: Seq<char>) -> Seq<char> {
    Seq::new((if s.len() < 4 {
        4 - s.len()
    } else {
        0
    }) as nat, |i: int| '0') + s
}

/// `s` ends in `suffix`.
pub open spec fn ends_in(s: Seq<char>, suffix: Seq<char>) -> bool {
    suffix.len() <= s.len() && s.skip(s.len() - suffix.len()) == suffix
}

/// `s` without any `.bin` at its end, however often it is repeated.
pub open spec fn without_extension(s: Seq<char>) -> Seq<char>
    decreases s.len(),
{
    if s.len() >= 4 && ends_in(s, seq!['.', 'b', 'i', 'n']) {
        without_extension(s.take(s.len() - 4))
    } else {
        s
    }
}

/// The number that `s` denotes: decimal digits, at least one of them, with or
/// without a plus sign before them, of a number that fits in 32 bits.
pub open spec fn parsed_u32(s: Seq<char>) -> Option<u32> {
    let digits = if s.len() > 0 && s[0] == '+' {
        s.drop_first()
    } else {
        s
    };
    if digits.len() > 0 && all_digits(digits) && digits_value(digits) <= u32::MAX {
        Some(digits_value(digits) as u32)
    } else {
        None
    }
}

/// The chunk that a file with this name holds, where it holds one.
pub open spec fn chunk_id_of(name: Seq<char>) -> Option<u32> {
    if name.len() >= 6 && name.take(6) == "chunk_"@ {
        parsed_u32(without_extension(name.skip(6)))
    } else {
        None
    }
}

/// The name of the file that holds chunk `id`.
pub fn chunk_name(id: u32) -> (name: String)
    ensures
        name@ == chunk_name_of(id),
{
    let number = to_decimal(id as u64);
    proof {
        lemma_decimal_width(id as nat);
        reveal_strlit("000");
        reveal_strlit("00");
        reveal_strlit("0");
    }
    let mut name = String::new();
    name.append("chunk_");
    if id < 10 {
        name.append("000");
    } else if id < 100 {
        name.append("00");
    } else if id < 1000 {
        name.append("0");
    }
    name.append(number.as_str());
    name.append(".bin");
    assert(name@ =~= chunk_name_of(id));
    name
}

proof fn lemma_decimal_width(n: nat)
    ensures
        n < 10 ==> decimal(n).len() == 1,
        10 <= n < 100 ==> decimal(n).len() == 2,
        100 <= n < 1000 ==> decimal(n).len() == 3,
        1000 <= n ==> decimal(n).len() >= 4,
{
    reveal_with_fuel(decimal, 4);
    if n >= 10000 {
        lemma_decimal_not_empty(n / 10000);
        reveal_with_fuel(decimal, 5);
    }
}

proof fn lemma_decimal_not_empty(n: nat)
    ensures
        decimal(n).len() >= 1,
{
    lemma_decimal_spells(n);
}

/// The chunk that a file called `name` holds, where it holds one.
pub fn parse_chunk_name(name: &str) -> (id: Option<u32>)
    ensures
        id == chunk_id_of(name@),
{
    let chars = to_chars(name);
    proof {
        reveal_strlit("chunk_");
    }
    if chars.len() < 6 || chars[0] != 'c' || chars[1] != 'h' || chars[2] != 'u' || chars[3] != 'n'
        || chars[4] != 'k' || chars[5] != '_' {
        proof {
            if name@.len() >= 6 {
                let start = name@.take(6);
                assert(start[0] == name@[0] && start[1] == name@[1] && start[2] == name@[2]);
                assert(start[3] == name@[3] && start[4] == name@[4] && start[5] == name@[5]);
            }
        }
        return None;
    }
    assert(name@.take(6) =~= "chunk_"@);
    let mut end: usize = chars.len();
    assert(chars@.subrange(6, end as int) =~= name@.skip(6));
    while end - 6 >= 4 && chars[end - 4] == '.' && chars[end - 3] == 'b' && chars[end - 2] == 'i'
        && chars[end - 1] == 'n'
        invariant
            6 <= end <= chars@.len(),
            without_extension(name@.skip(6)) == without_extension(chars@.subrange(6, end as int)),
        decreases end,
    {
        proof {
            let s = chars@.subrange(6, end as int);
            assert(s.skip(s.len() - 4) =~= seq!['.', 'b', 'i', 'n']);
            assert(s.take(s.len() - 4) =~= chars@.subrange(6, end - 4));
        }
        end = end - 4;
    }
    let ghost stem = chars@.subrange(6, end as int);
    proof {
        if stem.len() >= 4 && ends_in(stem, seq!['.', 'b', 'i', 'n']) {
            let tail = stem.skip(stem.len() - 4);
            assert(tail[0] == '.' && tail[1] == 'b' && tail[2] == 'i' && tail[3] == 'n');
        }
        assert(without_extension(stem) == stem);
    }
    let start: usize = if end > 6 && chars[6] == '+' {
        7
    } else {
        6
    };
    let ghost digits = chars@.subrange(start as int, end as int);
    proof {
        if start == 7 {
            assert(stem.drop_first() =~= digits);
        }
    }
    if start == end {
        return None;
    }
    let mut value: u64 = 0;
    let mut at: usize = start;
    proof {
        assert(digits.take(0) =~= Seq::<char>::empty());
    }
    while at < end
        invariant
            start <= at <= end <= chars@.len(),
            digits == chars@.subrange(start as int, end as int),
            all_digits(digits.take(at - start)),
            value as nat == digits_value(digits.take(at - start)),
            value <= u32::MAX,
            start < end,
            parsed_u32(stem) == (if all_digits(digits) && digits_value(digits) <= u32::MAX {
                Some(digits_value(digits) as u32)
            } else {
                None::<u32>
            }),
            chunk_id_of(name@) == parsed_u32(stem),
        decreases end - at,
    {
        let c = chars[at];
        let ghost k = at - start;
        proof {
            assert(digits[k] == c);
            assert(digits.take(k + 1).drop_last() =~= digits.take(k));
        }
        if c < '0' || c > '9' {
            assert(!is_digit(digits[k]));
            return None;
        }
        value = value * 10 + (c as u64 - '0' as u64);
        proof {
            assert forall|i: int| 0 <= i < k + 1 implies is_digit(
                #[trigger] digits.take(k + 1)[i],
            ) by {
                if i < k {
                    assert(digits.take(k)[i] == digits[i]);
                    assert(is_digit(digits.take(k)[i]));
                }
            }
        }
        if value > u32::MAX as u64 {
            proof {
                lemma_digits_grow(digits, k + 1);
            }
            return None;
        }
        at = at + 1;
    }
    assert(digits.take(end - start) =~= digits);
    Some(value as u32)
}

/// More digits spell a number that is no smaller.
proof fn lemma_digits_grow(s: Seq<char>, k: int)
    requires
        0 <= k <= s.len(),
    ensures
        digits_value(s.take(k)) <= digits_value(s),
    decreases s.len(),
{
    if k == s.len() {
        assert(s.take(k) =~= s);
    } else {
        lemma_digits_grow(s.drop_last(), k);
        assert(s.drop_last().take(k) =~= s.take(k));
    }
}

/// The name of a chunk file tells which chunk it holds.
pub proof fn chunk_name_round_trip(id: u32)
    ensures
        chunk_id_of(chunk_name_of(id)) == Some(id),
{
    let number = decimal(id as nat);
    let stem = padded(number);
    let zeros = (if number.len() < 4 {
        4 - number.len()
    } else {
        0
    }) as nat;
    let name = chunk_name_of(id);
    reveal_strlit("chunk_");
    reveal_strlit(".bin");
    lemma_decimal_spells(id as nat);
    lemma_leading_zeros(zeros, number);
    assert(name.take(6) =~= "chunk_"@);
    assert(name.skip(6) =~= stem + ".bin"@);
    let s = stem + ".bin"@;
    assert(s.skip(s.len() - 4) =~= seq!['.', 'b', 'i', 'n']);
    assert(s.take(s.len() - 4) =~= stem);
    assert(all_digits(stem));
    assert(is_digit(stem[stem.len() - 1]));
    if ends_in(stem, seq!['.', 'b', 'i', 'n']) {
        assert(stem.skip(stem.len() - 4)[3] == stem[stem.len() - 1]);
    }
    assert(without_extension(stem) == stem);
    assert(without_extension(s) == stem);
    assert(is_digit(stem[0]));
}

} // verus!
