//! Segment file naming: building `kv_<N>.log` names and reading the
//! segment index back out of them.

use vstd::prelude::*;
use vstd::string::*;

verus! {

/// True for the ten decimal digit characters.
pub open spec fn is_digit_char(c: char) -> bool {
    c == '0' || c == '1' || c == '2' || c == '3' || c == '4' || c == '5' || c == '6' || c == '7'
        || c == '8' || c == '9'
}

/// The numeric value of a decimal digit character; 0 for any other character.
pub open spec fn digit_val(c: char) -> int {
    if c == '1' {
        1
    } else if c == '2' {
        2
    } else if c == '3' {
        3
    } else if c == '4' {
        4
    } else if c == '5' {
        5
    } else if c == '6' {
        6
    } else if c == '7' {
        7
    } else if c == '8' {
        8
    } else if c == '9' {
        9
    } else {
        0
    }
}

/// True when every character of `s` is a decimal digit.
pub open spec fn all_digits(s: Seq<char>) -> bool {
    forall|i: int| 0 <= i < s.len() ==> is_digit_char(s[i])
}

/// The number denoted by a digit sequence, most significant digit first.
pub open spec fn digits_val(s: Seq<char>) -> int
    decreases s.len(),
{
    if s.len() == 0 {
        0
    } else {
        digits_val(s.drop_last()) * 10 + digit_val(s.last())
    }
}

/// The canonical decimal digit sequence of `n`, without leading zeros.
pub open spec fn dec_digits(n: nat) -> Seq<char>
    decreases n,
{
    if n < 10 {
        seq![digit_char(n as int)]
    } else {
        dec_digits(n / 10) + seq![digit_char((n % 10) as int)]
    }
}

/// The digit character for a value between 0 and 9.
pub open spec fn digit_char(d: int) -> char {
    if d == 1 {
        '1'
    } else if d == 2 {
        '2'
    } else if d == 3 {
        '3'
    } else if d == 4 {
        '4'
    } else if d == 5 {
        '5'
    } else if d == 6 {
        '6'
    } else if d == 7 {
        '7'
    } else if d == 8 {
        '8'
    } else if d == 9 {
        '9'
    } else {
        '0'
    }
}

/// The name of the segment file with index `idx`.
pub open spec fn spec_seg_name(idx: nat) -> Seq<char> {
    seq!['k', 'v', '_'] + dec_digits(idx) + seq!['.', 'l', 'o', 'g']
}

/// The name of the temporary file the compactor writes beside `name`.
pub open spec fn spec_tmp_name(name: Seq<char>) -> Seq<char> {
    seq!['_', 't', 'm', 'p', '_'] + name
}

/// The position of the last occurrence of `c` in `s`, or -1 when absent.
pub open spec fn last_pos_of(s: Seq<char>, c: char) -> int
    decreases s.len(),
{
    if s.len() == 0 {
        -1
    } else if s.last() == c {
        s.len() - 1
    } else {
        last_pos_of(s.drop_last(), c)
    }
}

/// What `last_pos_of` promises: it finds the last occurrence or reports none.
pub proof fn lemma_last_pos_of(s: Seq<char>, c: char)
    ensures
        ({
            let r = last_pos_of(s, c);
            &&& -1 <= r < s.len()
            &&& r >= 0 ==> s[r] == c
            &&& forall|j: int| r < j < s.len() ==> s[j] != c
        }),
    decreases s.len(),
{
    if s.len() > 0 && s.last() != c {
        lemma_last_pos_of(s.drop_last(), c);
        let r = last_pos_of(s, c);
        assert forall|j: int| r < j < s.len() implies s[j] != c by {
            if j < s.len() - 1 {
                assert(s[j] == s.drop_last()[j]);
            }
        }
    }
}

/// The part of a file name before its final dot, or the whole name when it
/// has no dot.
pub open spec fn spec_stem(s: Seq<char>) -> Seq<char> {
    let i = last_pos_of(s, '.');
    if i < 0 {
        s
    } else {
        s.subrange(0, i)
    }
}

/// The part of `s` after its last underscore, or all of `s` when it has none.
pub open spec fn spec_after_last_underscore(s: Seq<char>) -> Seq<char> {
    s.subrange(last_pos_of(s, '_') + 1, s.len() as int)
}

/// The number denoted by `s` when `s` is a non-empty digit sequence whose
/// value fits in `usize`; `None` otherwise.
pub open spec fn spec_parse_idx(s: Seq<char>) -> Option<int> {
    if s.len() > 0 && all_digits(s) && digits_val(s) <= usize::MAX {
        Some(digits_val(s))
    } else {
        None
    }
}

/// The segment index encoded in a file name: the digits after the last
/// underscore of the name's stem.
pub open spec fn spec_path_to_idx(s: Seq<char>) -> Option<int> {
    spec_parse_idx(spec_after_last_underscore(spec_stem(s)))
}

/// A position holding `c` with no later occurrence is the last occurrence.
pub proof fn lemma_last_pos_unique(s: Seq<char>, c: char, r: int)
    requires
        0 <= r < s.len(),
        s[r] == c,
        forall|j: int| r < j < s.len() ==> s[j] != c,
    ensures
        last_pos_of(s, c) == r,
{
    lemma_last_pos_of(s, c);
}

/// The value of a digit sequence never drops when more digits are appended.
pub proof fn lemma_digits_val_prefix_le(s: Seq<char>, i: int)
    requires
        0 <= i <= s.len(),
    ensures
        digits_val(s) >= digits_val(s.take(i)),
        digits_val(s) >= 0,
    decreases s.len() - i,
{
    if i == s.len() {
        assert(s.take(i) =~= s);
        lemma_digits_val_nonneg(s);
    } else {
        lemma_digits_val_prefix_le(s, i + 1);
        lemma_digits_val_nonneg(s.take(i));
        assert(s.take(i + 1).drop_last() =~= s.take(i));
        assert(digits_val(s.take(i + 1)) == digits_val(s.take(i)) * 10 + digit_val(
            s.take(i + 1).last(),
        ));
    }
}

/// The value of a digit sequence is never negative.
pub proof fn lemma_digits_val_nonneg(s: Seq<char>)
    ensures
        digits_val(s) >= 0,
    decreases s.len(),
{
    if s.len() > 0 {
        lemma_digits_val_nonneg(s.drop_last());
    }
}

/// The canonical digit sequence of `n` consists of digits and denotes `n`.
pub proof fn lemma_dec_digits_val(n: nat)
    ensures
        all_digits(dec_digits(n)),
        digits_val(dec_digits(n)) == n,
        dec_digits(n).len() >= 1,
    decreases n,
{
    if n < 10 {
        let s = dec_digits(n);
        assert(s.drop_last() =~= Seq::<char>::empty());
        assert(digits_val(s) == digits_val(s.drop_last()) * 10 + digit_val(s.last()));
    } else {
        lemma_dec_digits_val(n / 10);
        let s = dec_digits(n);
        assert(s.drop_last() =~= dec_digits(n / 10));
    }
}

/// Reading the index back out of a generated segment file name gives the
/// index the name was made from.
pub proof fn lemma_seg_name_roundtrip(idx: usize)
    ensures
        spec_path_to_idx(spec_seg_name(idx as nat)) == Some(idx as int),
{
    let name = spec_seg_name(idx as nat);
    let digits = dec_digits(idx as nat);
    lemma_dec_digits_val(idx as nat);
    let dlen = digits.len() as int;
    assert(name[3 + dlen] == '.');
    assert forall|j: int| 3 + dlen < j < name.len() implies name[j] != '.' by {}
    lemma_last_pos_unique(name, '.', 3 + dlen);
    let stem = spec_stem(name);
    assert(stem =~= seq!['k', 'v', '_'] + digits);
    assert(stem[2] == '_');
    assert forall|j: int| 2 < j < stem.len() implies stem[j] != '_' by {
        assert(is_digit_char(digits[j - 3]));
    }
    lemma_last_pos_unique(stem, '_', 2);
    assert(spec_after_last_underscore(stem) =~= digits);
}

/// A one-character string for the decimal digit `d`.
fn digit_str(d: usize) -> (r: &'static str)
    requires
        d < 10,
    ensures
        r@ == seq![digit_char(d as int)],
{
    proof {
        reveal_strlit("0");
        reveal_strlit("1");
        reveal_strlit("2");
        reveal_strlit("3");
        reveal_strlit("4");
        reveal_strlit("5");
        reveal_strlit("6");
        reveal_strlit("7");
        reveal_strlit("8");
        reveal_strlit("9");
    }
    if d == 0 {
        "0"
    } else if d == 1 {
        "1"
    } else if d == 2 {
        "2"
    } else if d == 3 {
        "3"
    } else if d == 4 {
        "4"
    } else if d == 5 {
        "5"
    } else if d == 6 {
        "6"
    } else if d == 7 {
        "7"
    } else if d == 8 {
        "8"
    } else {
        "9"
    }
}

/// Appends the decimal digits of `n` to `out`, most significant first.
fn push_decimal(n: usize, out: &mut String)
    ensures
        final(out)@ == old(out)@ + dec_digits(n as nat),
    decreases n,
{
    if n >= 10 {
        push_decimal(n / 10, out);
    }
    let d: usize = n % 10;
    out.append(digit_str(d));
    proof {
        if n >= 10 {
            assert(out@ =~= old(out)@ + dec_digits(n as nat));
        } else {
            assert(out@ =~= old(out)@ + dec_digits(n as nat));
        }
    }
}

/// The segment file name for a segment index: `kv_<idx>.log`.
pub fn file_idx_to_path(file_idx: usize) -> (r: String)
    ensures
        r@ == spec_seg_name(file_idx as nat),
{
    proof {
        reveal_strlit("kv_");
        reveal_strlit(".log");
    }
    let mut out: String = String::new();
    out.append("kv_");
    push_decimal(file_idx, &mut out);
    out.append(".log");
    proof {
        assert(out@ =~= spec_seg_name(file_idx as nat));
    }
    out
}

/// The temporary file name the compactor uses beside `file_name`.
pub fn get_tmp_file_path(file_name: &String) -> (r: String)
    ensures
        r@ == spec_tmp_name(file_name@),
{
    proof {
        reveal_strlit("_tmp_");
    }
    let mut out: String = String::new();
    out.append("_tmp_");
    out.append(file_name.as_str());
    proof {
        assert(out@ =~= spec_tmp_name(file_name@));
    }
    out
}

/// The numeric value of a digit character, or `None` for any other character.
fn digit_of(c: char) -> (r: Option<usize>)
    ensures
        match r {
            Some(d) => is_digit_char(c) && d == digit_val(c),
            None => !is_digit_char(c),
        },
{
    if c == '0' {
        Some(0)
    } else if c == '1' {
        Some(1)
    } else if c == '2' {
        Some(2)
    } else if c == '3' {
        Some(3)
    } else if c == '4' {
        Some(4)
    } else if c == '5' {
        Some(5)
    } else if c == '6' {
        Some(6)
    } else if c == '7' {
        Some(7)
    } else if c == '8' {
        Some(8)
    } else if c == '9' {
        Some(9)
    } else {
        None
    }
}

/// Extracts the segment index from a file name, reading the decimal digits
/// that follow the last underscore of the name's stem.
#[verifier::rlimit(80)]
pub fn path_to_idx(file_name: &String) -> (r: Option<usize>)
    ensures
        match r {
            Some(idx) => spec_path_to_idx(file_name@) == Some(idx as int),
            None => spec_path_to_idx(file_name@) is None,
        },
{
    let s: &str = file_name.as_str();
    let n: usize = s.unicode_len();

    // Find the stem: everything before the last dot, if any.
    let mut stem_hi: usize = n;
    let mut has_dot: bool = false;
    let mut j: usize = 0;
    while j < n
        invariant
            j <= n,
            n == s@.len(),
            !has_dot ==> forall|t: int| 0 <= t < j ==> s@[t] != '.',
            has_dot ==> stem_hi < j && s@[stem_hi as int] == '.' && forall|t: int|
                stem_hi < t < j ==> s@[t] != '.',
        decreases n - j,
    {
        if s.get_char(j) == '.' {
            stem_hi = j;
            has_dot = true;
        }
        j = j + 1;
    }
    if !has_dot {
        stem_hi = n;
    }
    proof {
        lemma_last_pos_of(s@, '.');
        if has_dot {
            lemma_last_pos_unique(s@, '.', stem_hi as int);
            assert(spec_stem(s@) =~= s@.subrange(0, stem_hi as int));
        } else {
            assert(last_pos_of(s@, '.') == -1);
            assert(spec_stem(s@) =~= s@.subrange(0, stem_hi as int));
        }
    }
    let ghost stem = spec_stem(s@);

    // Find the start of the digits: just after the last underscore of the stem.
    let mut lo: usize = 0;
    let mut has_us: bool = false;
    let mut k: usize = 0;
    while k < stem_hi
        invariant
            k <= stem_hi <= n,
            n == s@.len(),
            stem == s@.subrange(0, stem_hi as int),
            !has_us ==> lo == 0 && forall|t: int| 0 <= t < k ==> s@[t] != '_',
            has_us ==> 0 < lo <= k && s@[lo - 1] == '_' && forall|t: int|
                lo <= t < k ==> s@[t] != '_',
        decreases stem_hi - k,
    {
        if s.get_char(k) == '_' {
            lo = k + 1;
            has_us = true;
        }
        k = k + 1;
    }
    proof {
        lemma_last_pos_of(stem, '_');
        if has_us {
            lemma_last_pos_unique(stem, '_', lo - 1);
        } else {
            assert(last_pos_of(stem, '_') == -1);
        }
        assert(spec_after_last_underscore(stem) =~= s@.subrange(lo as int, stem_hi as int));
    }
    let ghost digits = spec_after_last_underscore(stem);

    // Parse the digits as a decimal number.
    if lo == stem_hi {
        return None;
    }
    let mut acc: usize = 0;
    let mut i: usize = lo;
    while i < stem_hi
        invariant
            lo <= i <= stem_hi <= n,
            n == s@.len(),
            digits == s@.subrange(lo as int, stem_hi as int),
            spec_path_to_idx(file_name@) == spec_parse_idx(digits),
            all_digits(digits.take(i - lo)),
            acc as int == digits_val(digits.take(i - lo)),
        decreases stem_hi - i,
    {
        let c: char = s.get_char(i);
        match digit_of(c) {
            Some(d) => {
                let wide: u128 = (acc as u128) * 10 + (d as u128);
                if wide > (usize::MAX as u128) {
                    proof {
                        assert(digits.take(i + 1 - lo).drop_last() =~= digits.take(i - lo));
                        assert(digits_val(digits.take(i + 1 - lo)) == wide);
                        lemma_digits_val_prefix_le(digits, i + 1 - lo);
                        assert(digits.take(digits.len() as int) =~= digits);
                        assert(digits_val(digits) >= wide > usize::MAX);
                    }
                    return None;
                }
                proof {
                    assert(digits.take(i + 1 - lo).drop_last() =~= digits.take(i - lo));
                }
                acc = wide as usize;
            },
            None => {
                proof {
                    assert(!is_digit_char(digits[i - lo]));
                }
                return None;
            },
        }
        i = i + 1;
    }
    proof {
        assert(digits.take(i - lo) =~= digits);
    }
    Some(acc)
}

} // verus!
