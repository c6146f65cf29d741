//! Character-sequence utilities: whitespace trimming, line splitting,
//! string equality, and bounded decimal parsing.

use vstd::prelude::*;
use vstd::string::*;

verus! {

/// The whitespace characters that trimming removes from line ends.
pub open spec fn is_space(c: char) -> bool {
    c == ' ' || c == '\t' || c == '\n' || c == '\r' || c == '\x0b' || c == '\x0c'
}

/// Executable test for `is_space`.
pub fn is_space_char(c: char) -> (r: bool)
    ensures
        r == is_space(c),
{
    c == ' ' || c == '\t' || c == '\n' || c == '\r' || c == '\x0b' || c == '\x0c'
}

/// `s` with its leading whitespace removed.
pub open spec fn trim_start(s: Seq<char>) -> Seq<char>
    decreases s.len(),
{
    if s.len() > 0 && is_space(s[0]) {
        trim_start(s.skip(1))
    } else {
        s
    }
}

/// `s` with its trailing whitespace removed.
pub open spec fn trim_end(s: Seq<char>) -> Seq<char>
    decreases s.len(),
{
    if s.len() > 0 && is_space(s.last()) {
        trim_end(s.drop_last())
    } else {
        s
    }
}

/// `s` with leading and trailing whitespace removed.
pub open spec fn trimmed(s: Seq<char>) -> Seq<char> {
    trim_end(trim_start(s))
}

proof fn lemma_trim_start_at(s: Seq<char>, i: int)
    requires
        0 <= i <= s.len(),
        forall|k: int| 0 <= k < i ==> is_space(s[k]),
        i == s.len() || !is_space(s[i]),
    ensures
        trim_start(s) == s.skip(i),
    decreases i,
{
    if i == 0 {
        assert(s.skip(0) =~= s);
    } else {
        lemma_trim_start_at(s.skip(1), i - 1);
        assert(s.skip(1).skip(i - 1) =~= s.skip(i));
    }
}

proof fn lemma_trim_end_at(s: Seq<char>, j: int)
    requires
        0 <= j <= s.len(),
        forall|k: int| j <= k < s.len() ==> is_space(s[k]),
        j == 0 || !is_space(s[j - 1]),
    ensures
        trim_end(s) == s.take(j),
    decreases s.len(),
{
    if j == s.len() {
        if s.len() > 0 {
            assert(s.take(j) =~= s);
        } else {
            assert(s.take(0) =~= s);
        }
    } else {
        lemma_trim_end_at(s.drop_last(), j);
        assert(s.drop_last().take(j) =~= s.take(j));
    }
}

/// Removes leading and trailing whitespace, as `trimmed` describes.
pub fn trim_str<'a>(s: &'a str) -> (r: &'a str)
    ensures
        r@ == trimmed(s@),
{
    let n = s.unicode_len();
    let mut i: usize = 0;
    while i < n && is_space_char(s.get_char(i))
        invariant
            0 <= i <= n,
            n == s@.len(),
            forall|k: int| 0 <= k < i ==> is_space(s@[k]),
        decreases n - i,
    {
        i += 1;
    }
    let mut j: usize = n;
    while j > i && is_space_char(s.get_char(j - 1))
        invariant
            i <= j <= n,
            n == s@.len(),
            forall|k: int| j <= k < n ==> is_space(s@[k]),
        decreases j,
    {
        j -= 1;
    }
    proof {
        lemma_trim_start_at(s@, i as int);
        lemma_trim_end_at(s@.skip(i as int), j - i);
        assert(s@.skip(i as int).take(j - i) =~= s@.subrange(i as int, j as int));
    }
    s.substring_char(i, j)
}

/// Character-wise string equality.
pub fn str_eq(a: &str, b: &str) -> (r: bool)
    ensures
        r == (a@ == b@),
{
    let na = a.unicode_len();
    let nb = b.unicode_len();
    if na != nb {
        return false;
    }
    let mut i: usize = 0;
    while i < na
        invariant
            0 <= i <= na,
            na == a@.len(),
            na == b@.len(),
            forall|k: int| 0 <= k < i ==> a@[k] == b@[k],
        decreases na - i,
    {
        if a.get_char(i) != b.get_char(i) {
            return false;
        }
        i += 1;
    }
    proof {
        assert(a@ =~= b@);
    }
    true
}

/// The lines of `s`: the segments between `'\n'` characters.  A text with
/// `k` newline characters has exactly `k + 1` lines, possibly empty.
pub open spec fn split_lines_spec(s: Seq<char>) -> Seq<Seq<char>>
    decreases s.len(),
{
    if s.len() == 0 {
        seq![Seq::<char>::empty()]
    } else if s[0] == '\n' {
        seq![Seq::<char>::empty()] + split_lines_spec(s.skip(1))
    } else {
        let rest = split_lines_spec(s.skip(1));
        seq![seq![s[0]] + rest[0]] + rest.skip(1)
    }
}

proof fn lemma_split_no_nl(s: Seq<char>)
    requires
        forall|k: int| 0 <= k < s.len() ==> s[k] != '\n',
    ensures
        split_lines_spec(s) == seq![s],
    decreases s.len(),
{
    if s.len() == 0 {
        assert(Seq::<char>::empty() =~= s);
        assert(split_lines_spec(s) =~~= seq![s]);
    } else {
        lemma_split_no_nl(s.skip(1));
        let rest = split_lines_spec(s.skip(1));
        assert(seq![s[0]] + rest[0] =~= s);
        assert(split_lines_spec(s) =~~= seq![s]);
    }
}

proof fn lemma_split_at_nl(s: Seq<char>, m: int)
    requires
        0 <= m < s.len(),
        s[m] == '\n',
        forall|k: int| 0 <= k < m ==> s[k] != '\n',
    ensures
        split_lines_spec(s) == seq![s.take(m)] + split_lines_spec(s.skip(m + 1)),
    decreases m,
{
    if m == 0 {
        assert(s.take(0) =~= Seq::<char>::empty());
        assert(split_lines_spec(s) =~~= seq![s.take(0)] + split_lines_spec(s.skip(1)));
    } else {
        lemma_split_at_nl(s.skip(1), m - 1);
        let rest = split_lines_spec(s.skip(1));
        assert(rest == seq![s.skip(1).take(m - 1)] + split_lines_spec(s.skip(1).skip(m)));
        assert(seq![s[0]] + rest[0] =~= s.take(m));
        assert(s.skip(1).skip(m) =~= s.skip(m + 1));
        assert(rest.skip(1) =~= split_lines_spec(s.skip(m + 1)));
        assert(split_lines_spec(s) =~~= seq![s.take(m)] + split_lines_spec(s.skip(m + 1)));
    }
}

/// Splits `s` at each `'\n'` character, as `split_lines_spec` describes.
pub fn split_lines(s: &str) -> (r: Vec<String>)
    ensures
        r@.map_values(|l: String| l@) == split_lines_spec(s@),
{
    let n = s.unicode_len();
    let mut r: Vec<String> = Vec::new();
    let mut pos: usize = 0;
    proof {
        assert(s@.skip(0) =~= s@);
        assert(r@.map_values(|l: String| l@) =~= Seq::<Seq<char>>::empty());
    }
    loop
        invariant
            0 <= pos <= n,
            n == s@.len(),
            split_lines_spec(s@) == r@.map_values(|l: String| l@) + split_lines_spec(
                s@.skip(pos as int),
            ),
        decreases n - pos,
    {
        let ghost prev = r@.map_values(|l: String| l@);
        let mut j: usize = pos;
        while j < n && s.get_char(j) != '\n'
            invariant
                pos <= j <= n,
                n == s@.len(),
                forall|k: int| pos <= k < j ==> s@[k] != '\n',
            decreases n - j,
        {
            j += 1;
        }
        let line = s.substring_char(pos, j).to_owned();
        r.push(line);
        proof {
            let t = s@.skip(pos as int);
            assert(forall|k: int| 0 <= k < j - pos ==> t[k] != '\n');
            assert(r@.map_values(|l: String| l@) =~= prev + seq![line@]);
        }
        if j < n {
            proof {
                let t = s@.skip(pos as int);
                lemma_split_at_nl(t, j - pos);
                assert(t.take(j - pos) =~= s@.subrange(pos as int, j as int));
                assert(t.skip(j - pos + 1) =~= s@.skip(j + 1));
                assert(split_lines_spec(s@) =~~= (prev + seq![line@]) + split_lines_spec(
                    s@.skip(j + 1),
                ));
            }
            pos = j + 1;
        } else {
            proof {
                let t = s@.skip(pos as int);
                lemma_split_no_nl(t);
                assert(t =~= s@.subrange(pos as int, n as int));
                assert(split_lines_spec(s@) =~~= prev + seq![line@]);
            }
            return r;
        }
    }
}

/// Whether `c` occurs in `s`.
pub fn contains_char(s: &str, c: char) -> (r: bool)
    ensures
        r == s@.contains(c),
{
    let n = s.unicode_len();
    let mut i: usize = 0;
    while i < n
        invariant
            0 <= i <= n,
            n == s@.len(),
            forall|k: int| 0 <= k < i ==> s@[k] != c,
        decreases n - i,
    {
        if s.get_char(i) == c {
            return true;
        }
        i += 1;
    }
    false
}

/// Whether `c` is a decimal digit.
pub open spec fn is_digit(c: char) -> bool {
    48 <= c as u32 <= 57
}

/// The numeric value of the digit `c`.
pub open spec fn digit_val(c: char) -> int {
    c as u32 - 48
}

/// Whether every character of `s` is a decimal digit.
pub open spec fn all_digits(s: Seq<char>) -> bool {
    forall|k: int| 0 <= k < s.len() ==> is_digit(s[k])
}

/// The value of the digit string `s`, most significant digit first.
pub open spec fn digits_val(s: Seq<char>) -> int
    decreases s.len(),
{
    if s.len() == 0 {
        0
    } else {
        digits_val(s.drop_last()) * 10 + digit_val(s.last())
    }
}

/// `s` without an optional leading `'+'` sign.
pub open spec fn dec_body(s: Seq<char>) -> Seq<char> {
    if s.len() > 0 && s[0] == '+' {
        s.skip(1)
    } else {
        s
    }
}

/// The value of `s` read as an unsigned 16-bit decimal literal: an optional
/// `'+'` sign, then one or more digits, denoting a value of at most 65535.
pub open spec fn dec_u16(s: Seq<char>) -> Option<u16> {
    let b = dec_body(s);
    if b.len() > 0 && all_digits(b) && digits_val(b) <= 65535 {
        Some(digits_val(b) as u16)
    } else {
        None
    }
}

proof fn lemma_digits_val_nonneg(s: Seq<char>)
    requires
        all_digits(s),
    ensures
        digits_val(s) >= 0,
    decreases s.len(),
{
    if s.len() > 0 {
        assert(all_digits(s.drop_last()));
        lemma_digits_val_nonneg(s.drop_last());
    }
}

proof fn lemma_digits_val_prefix(s: Seq<char>, k: int)
    requires
        all_digits(s),
        0 <= k <= s.len(),
    ensures
        digits_val(s) >= digits_val(s.take(k)),
    decreases s.len(),
{
    if k < s.len() {
        assert(all_digits(s.drop_last()));
        lemma_digits_val_prefix(s.drop_last(), k);
        assert(s.drop_last().take(k) =~= s.take(k));
        lemma_digits_val_nonneg(s.drop_last());
    } else {
        assert(s.take(k) =~= s);
    }
}

/// Reads `s` as an unsigned 16-bit decimal literal, as `dec_u16` describes.
pub fn parse_u16(s: &str) -> (r: Option<u16>)
    ensures
        r == dec_u16(s@),
{
    let n = s.unicode_len();
    let start: usize = if n > 0 && s.get_char(0) == '+' {
        1
    } else {
        0
    };
    proof {
        assert(dec_body(s@) =~= s@.skip(start as int));
    }
    let ghost b = s@.skip(start as int);
    if n == start {
        return None;
    }
    let mut v: u32 = 0;
    let mut i: usize = start;
    while i < n
        invariant
            start <= i <= n,
            n == s@.len(),
            b == s@.skip(start as int),
            b == dec_body(s@),
            all_digits(b.take(i - start)),
            v == digits_val(b.take(i - start)),
            v <= 65535,
        decreases n - i,
    {
        let c = s.get_char(i);
        let cu = c as u32;
        if cu < 48 || cu > 57 {
            proof {
                assert(b[i - start] == c);
                assert(!is_digit(b[i - start]));
            }
            return None;
        }
        let ghost pre = b.take(i - start);
        v = v * 10 + (cu - 48);
        proof {
            assert(b.take(i - start + 1).drop_last() =~= pre);
            assert(b.take(i - start + 1).last() == c);
        }
        i += 1;
        if v > 65535 {
            proof {
                assert(all_digits(b.take(i - start)));
                if all_digits(b) {
                    lemma_digits_val_prefix(b, i - start);
                }
            }
            return None;
        }
    }
    proof {
        assert(b.take(n - start) =~= b);
    }
    Some(v as u16)
}

} // verus!
