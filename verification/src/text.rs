//! Text as sequences of characters: trimming, numbers, searching.
use vstd::prelude::*;

verus! {

/// `String::push` of std: the character is appended to the text.
pub assume_specification[ String::push ](s: &mut String, c: char)
    ensures
        final(s)@ == old(s)@.push(c),
;

/// The characters of a text.
pub fn chars(s: &str) -> (v: Vec<char>)
    ensures
        v@ == s@,
{
    let mut v: Vec<char> = Vec::new();
    for c in it: s.chars()
        invariant
            v@ == it.seq().take(it.index()),
            it.seq() == s@,
    {
        v.push(c);
    }
    assert(v@ =~= s@);
    v
}

/// The text made of these characters.
pub fn string(v: &[char]) -> (s: String)
    ensures
        s@ == v@,
{
    let mut s: String = String::new();
    let mut i: usize = 0;
    while i < v.len()
        invariant
            i <= v@.len(),
            s@ == v@.take(i as int),
        decreases v@.len() - i,
    {
        s.push(v[i]);
        assert(v@.take(i + 1) =~= v@.take(i as int).push(v@[i as int]));
        i = i + 1;
    }
    assert(v@.take(i as int) =~= v@);
    s
}

/// Characters that count as white space.
pub open spec fn is_white(c: char) -> bool {
    let u = c as u32;
    ||| 0x09 <= u <= 0x0d
    ||| u == 0x20
    ||| u == 0x85
    ||| u == 0xa0
    ||| u == 0x1680
    ||| 0x2000 <= u <= 0x200a
    ||| u == 0x2028
    ||| u == 0x2029
    ||| u == 0x202f
    ||| u == 0x205f
    ||| u == 0x3000
}

/// Whether a character is white space.
pub fn white(c: char) -> (b: bool)
    ensures
        b == is_white(c),
{
    let u: u32 = c as u32;
    0x09 <= u && u <= 0x0d || u == 0x20 || u == 0x85 || u == 0xa0 || u == 0x1680 || 0x2000 <= u
        && u <= 0x200a || u == 0x2028 || u == 0x2029 || u == 0x202f || u == 0x205f || u == 0x3000
}

/// A text without the white space at its start.
pub open spec fn trim_start(s: Seq<char>) -> Seq<char>
    decreases s.len(),
{
    if s.len() > 0 && is_white(s[0]) {
        trim_start(s.drop_first())
    } else {
        s
    }
}

/// A text without the white space at its end.
pub open spec fn trim_end(s: Seq<char>) -> Seq<char>
    decreases s.len(),
{
    if s.len() > 0 && is_white(s.last()) {
        trim_end(s.drop_last())
    } else {
        s
    }
}

/// A text without white space around it.
pub open spec fn trim(s: Seq<char>) -> Seq<char> {
    trim_end(trim_start(s))
}

/// A text without the occurrences of `c` at its end.
pub open spec fn trim_end_of(s: Seq<char>, c: char) -> Seq<char>
    decreases s.len(),
{
    if s.len() > 0 && s.last() == c {
        trim_end_of(s.drop_last(), c)
    } else {
        s
    }
}

/// Trimming never makes a text longer.
pub proof fn lemma_trim_shortens(s: Seq<char>)
    ensures
        trim(s).len() <= s.len(),
{
    lemma_trim_start_shortens(s);
    lemma_trim_end_shortens(trim_start(s));
}

proof fn lemma_trim_start_shortens(s: Seq<char>)
    ensures
        trim_start(s).len() <= s.len(),
    decreases s.len(),
{
    if s.len() > 0 && is_white(s[0]) {
        lemma_trim_start_shortens(s.drop_first());
    }
}

proof fn lemma_trim_end_shortens(s: Seq<char>)
    ensures
        trim_end(s).len() <= s.len(),
    decreases s.len(),
{
    if s.len() > 0 && is_white(s.last()) {
        lemma_trim_end_shortens(s.drop_last());
    }
}

/// Drops the white space at the start.
pub fn trimmed_start(s: &[char]) -> (r: Vec<char>)
    ensures
        r@ == trim_start(s@),
{
    let mut i: usize = 0;
    assert(s@.skip(0) =~= s@);
    while i < s.len() && white(s[i])
        invariant
            i <= s@.len(),
            trim_start(s@) == trim_start(s@.skip(i as int)),
        decreases s@.len() - i,
    {
        assert(s@.skip(i as int).drop_first() =~= s@.skip(i + 1));
        i = i + 1;
    }
    slice_of(s, i, s.len())
}

/// Drops the white space at the end.
pub fn trimmed_end(s: &[char]) -> (r: Vec<char>)
    ensures
        r@ == trim_end(s@),
{
    let mut n: usize = s.len();
    assert(s@.take(n as int) =~= s@);
    while n > 0 && white(s[n - 1])
        invariant
            n <= s@.len(),
            trim_end(s@) == trim_end(s@.take(n as int)),
        decreases n,
    {
        assert(s@.take(n as int).drop_last() =~= s@.take(n - 1));
        n = n - 1;
    }
    slice_of(s, 0, n)
}

/// Drops the white space on both sides.
pub fn trimmed(s: &[char]) -> (r: Vec<char>)
    ensures
        r@ == trim(s@),
{
    let front = trimmed_start(s);
    trimmed_end(front.as_slice())
}

/// Drops the occurrences of `c` at the end.
pub fn trimmed_end_of(s: &[char], c: char) -> (r: Vec<char>)
    ensures
        r@ == trim_end_of(s@, c),
{
    let mut n: usize = s.len();
    assert(s@.take(n as int) =~= s@);
    while n > 0 && s[n - 1] == c
        invariant
            n <= s@.len(),
            trim_end_of(s@, c) == trim_end_of(s@.take(n as int), c),
        decreases n,
    {
        assert(s@.take(n as int).drop_last() =~= s@.take(n - 1));
        n = n - 1;
    }
    slice_of(s, 0, n)
}

/// The characters `from .. to`.
pub fn slice_of(s: &[char], from: usize, to: usize) -> (r: Vec<char>)
    requires
        from <= to <= s@.len(),
    ensures
        r@ == s@.subrange(from as int, to as int),
{
    let mut r: Vec<char> = Vec::new();
    let mut i: usize = from;
    while i < to
        invariant
            from <= i <= to <= s@.len(),
            r@ == s@.subrange(from as int, i as int),
        decreases to - i,
    {
        r.push(s[i]);
        assert(s@.subrange(from as int, i + 1) =~= s@.subrange(from as int, i as int).push(
            s@[i as int],
        ));
        i = i + 1;
    }
    r
}

/// Whether two texts are the same.
pub fn same(a: &[char], b: &[char]) -> (r: bool)
    ensures
        r <==> a@ == b@,
{
    if a.len() != b.len() {
        return false;
    }
    let mut i: usize = 0;
    while i < a.len()
        invariant
            i <= a@.len(),
            a@.len() == b@.len(),
            forall|j: int| 0 <= j < i ==> a@[j] == b@[j],
        decreases a@.len() - i,
    {
        if a[i] != b[i] {
            return false;
        }
        i = i + 1;
    }
    assert(a@ =~= b@);
    true
}

/// How many bytes a character takes in UTF-8.
pub open spec fn utf8_len(c: char) -> int {
    let u = c as u32;
    if u < 0x80 {
        1
    } else if u < 0x800 {
        2
    } else if u < 0x10000 {
        3
    } else {
        4
    }
}

/// How many bytes a text takes in UTF-8.
pub open spec fn bytes_len(s: Seq<char>) -> int
    decreases s.len(),
{
    if s.len() == 0 {
        0
    } else {
        bytes_len(s.drop_last()) + utf8_len(s.last())
    }
}

/// The character at which byte `pos` of a text starts, or the length of the
/// text where `pos` is its end; none inside a character or past the end.
pub open spec fn char_at_byte(s: Seq<char>, pos: int) -> Option<int>
    decreases s.len(),
{
    if bytes_len(s) == pos {
        Some(s.len() as int)
    } else if s.len() == 0 {
        None
    } else {
        char_at_byte(s.drop_last(), pos)
    }
}

/// The part of a text between two byte positions; none unless both are
/// boundaries between characters.
pub open spec fn byte_slice(s: Seq<char>, a: int, z: int) -> Option<Seq<char>> {
    match (char_at_byte(s, a), char_at_byte(s, z)) {
        (Some(i), Some(j)) => Some(s.subrange(i, j)),
        _ => None,
    }
}

/// A character starts where the bytes before it end.
pub proof fn lemma_char_at_byte(s: Seq<char>, pos: int, n: int)
    requires
        0 <= n <= s.len(),
    ensures
        forall|i: int|
            0 <= i <= n && #[trigger] bytes_len(s.take(i)) == pos ==> char_at_byte(s.take(n), pos)
                == Some(i),
        (forall|i: int| 0 <= i <= n ==> #[trigger] bytes_len(s.take(i)) != pos) ==> char_at_byte(
            s.take(n),
            pos,
        ) is None,
    decreases n,
{
    assert(bytes_len(s.take(n)) == bytes_len(s.take(n)));
    if n > 0 {
        assert(s.take(n).drop_last() =~= s.take(n - 1));
        lemma_char_at_byte(s, pos, n - 1);
    }
    assert forall|i: int| 0 <= i <= n && #[trigger] bytes_len(s.take(i)) == pos implies char_at_byte(
        s.take(n),
        pos,
    ) == Some(i) by {
        if i < n {
            lemma_bytes_grow(s, i, n);
        }
    }
}

/// Where a byte position is a boundary, the characters before it take as many
/// bytes.
pub proof fn lemma_char_at_byte_is_prefix(s: Seq<char>, pos: int)
    requires
        char_at_byte(s, pos) is Some,
    ensures
        0 <= char_at_byte(s, pos)->0 <= s.len(),
        bytes_len(s.take(char_at_byte(s, pos)->0)) == pos,
    decreases s.len(),
{
    if bytes_len(s) == pos {
        assert(s.take(s.len() as int) =~= s);
    } else {
        let front = s.drop_last();
        lemma_char_at_byte_is_prefix(front, pos);
        assert(front.take(char_at_byte(front, pos)->0) =~= s.take(char_at_byte(front, pos)->0));
    }
}

/// Byte positions grow with every character.
pub proof fn lemma_bytes_grow(s: Seq<char>, i: int, j: int)
    requires
        0 <= i <= j <= s.len(),
    ensures
        bytes_len(s.take(i)) + (j - i) <= bytes_len(s.take(j)) <= bytes_len(s.take(i)) + 4 * (j - i),
    decreases j - i,
{
    if i < j {
        lemma_bytes_grow(s, i, j - 1);
        assert(s.take(j).drop_last() =~= s.take(j - 1));
    }
}

/// The character at which byte `pos` starts, or the end of the text.
fn at_byte(s: &[char], pos: usize) -> (r: Option<usize>)
    requires
        pos + 4 <= usize::MAX,
    ensures
        match r {
            Some(i) => i <= s@.len() && bytes_len(s@.take(i as int)) == pos && char_at_byte(
                s@,
                pos as int,
            ) == Some(i as int),
            None => char_at_byte(s@, pos as int) is None,
        },
{
    let mut i: usize = 0;
    let mut b: usize = 0;
    while i < s.len() && b < pos
        invariant
            i <= s@.len(),
            pos + 4 <= usize::MAX,
            b == bytes_len(s@.take(i as int)),
            forall|j: int| 0 <= j < i ==> #[trigger] bytes_len(s@.take(j)) < pos,
        decreases s@.len() - i,
    {
        let u: u32 = s[i] as u32;
        let k: usize = if u < 0x80 {
            1
        } else if u < 0x800 {
            2
        } else if u < 0x10000 {
            3
        } else {
            4
        };
        assert(s@.take(i + 1).drop_last() =~= s@.take(i as int));
        b = b + k;
        i = i + 1;
    }
    proof {
        lemma_char_at_byte(s@, pos as int, s@.len() as int);
        assert(s@.take(s@.len() as int) =~= s@);
    }
    if b == pos {
        Some(i)
    } else {
        assert forall|j: int| 0 <= j <= s@.len() implies #[trigger] bytes_len(s@.take(j)) != pos by {
            if j >= i {
                lemma_bytes_grow(s@, i as int, j);
            }
        }
        None
    }
}

/// The part of a text between two byte positions.
pub fn between_bytes(s: &[char], a: usize, z: usize) -> (r: Option<Vec<char>>)
    requires
        a <= z,
        z + 4 <= usize::MAX,
    ensures
        r is Some <==> byte_slice(s@, a as int, z as int) is Some,
        r is Some ==> byte_slice(s@, a as int, z as int) == Some(r->0@),
{
    match at_byte(s, a) {
        None => None,
        Some(i) => match at_byte(s, z) {
            None => None,
            Some(j) => {
                proof {
                    if j < i {
                        lemma_bytes_grow(s@, j as int, i as int);
                    }
                }
                Some(slice_of(s, i, j))
            },
        },
    }
}

/// Whether a text takes at least `n` bytes.
pub fn at_least_bytes(s: &[char], n: usize) -> (r: bool)
    requires
        n + 4 <= usize::MAX,
    ensures
        r <==> bytes_len(s@) >= n,
{
    let mut i: usize = 0;
    let mut b: usize = 0;
    while i < s.len() && b < n
        invariant
            i <= s@.len(),
            n + 4 <= usize::MAX,
            b == bytes_len(s@.take(i as int)),
        decreases s@.len() - i,
    {
        let u: u32 = s[i] as u32;
        let k: usize = if u < 0x80 {
            1
        } else if u < 0x800 {
            2
        } else if u < 0x10000 {
            3
        } else {
            4
        };
        assert(s@.take(i + 1).drop_last() =~= s@.take(i as int));
        b = b + k;
        i = i + 1;
    }
    proof {
        lemma_bytes_grow(s@, i as int, s@.len() as int);
        assert(s@.take(s@.len() as int) =~= s@);
    }
    b >= n
}

/// An ASCII digit.
pub open spec fn is_digit(c: char) -> bool {
    0x30 <= c as u32 <= 0x39
}

/// Whether every character is an ASCII digit.
pub open spec fn all_digits(s: Seq<char>) -> bool {
    forall|i: int| 0 <= i < s.len() ==> is_digit(#[trigger] s[i])
}

/// The number that a row of digits stands for.
pub open spec fn digits_value(s: Seq<char>) -> nat
    decreases s.len(),
{
    if s.len() == 0 {
        0
    } else {
        (10 * digits_value(s.drop_last()) + (s.last() as u32 - 0x30)) as nat
    }
}

/// Reads a row of digits as a number no larger than `max`; none if there is
/// no digit, anything but digits, or too large a number.
pub open spec fn parse_digits(s: Seq<char>, max: int) -> Option<int> {
    if s.len() > 0 && all_digits(s) && digits_value(s) <= max {
        Some(digits_value(s) as int)
    } else {
        None
    }
}

/// More digits never make a smaller number.
proof fn lemma_digits_grow(s: Seq<char>, i: int, j: int)
    requires
        0 <= i <= j <= s.len(),
        all_digits(s),
    ensures
        digits_value(s.take(i)) <= digits_value(s.take(j)),
    decreases j - i,
{
    if i < j {
        lemma_digits_grow(s, i, j - 1);
        assert(s.take(j).drop_last() =~= s.take(j - 1));
        assert(is_digit(s[j - 1]));
    }
}

/// Reads a row of digits.
pub fn digits(s: &[char], max: u64) -> (r: Option<u64>)
    ensures
        r is Some <==> parse_digits(s@, max as int) is Some,
        r is Some ==> parse_digits(s@, max as int) == Some(r->0 as int),
{
    if s.len() == 0 {
        return None;
    }
    let mut i: usize = 0;
    let mut v: u64 = 0;
    while i < s.len()
        invariant
            i <= s@.len(),
            v == digits_value(s@.take(i as int)),
            v <= max,
            forall|j: int| 0 <= j < i ==> is_digit(#[trigger] s@[j]),
        decreases s@.len() - i,
    {
        let u: u32 = s[i] as u32;
        if u < 0x30 || u > 0x39 {
            assert(!is_digit(s@[i as int]));
            return None;
        }
        let d: u64 = (u - 0x30) as u64;
        assert(s@.take(i + 1).drop_last() =~= s@.take(i as int));
        if v > (u64::MAX - d) / 10 || 10 * v + d > max {
            proof {
                assert(digits_value(s@.take(i + 1)) > max);
                if all_digits(s@) {
                    lemma_digits_grow(s@, i + 1, s@.len() as int);
                    assert(s@.take(s@.len() as int) =~= s@);
                }
            }
            return None;
        }
        v = 10 * v + d;
        i = i + 1;
    }
    assert(s@.take(i as int) =~= s@);
    Some(v)
}

/// Reads a whole number with an optional sign, as `i64` is written.
pub open spec fn parse_int(s: Seq<char>) -> Option<int> {
    if s.len() > 0 && s[0] == '-' {
        match parse_digits(s.drop_first(), 0x8000_0000_0000_0000) {
            Some(v) => Some(-v),
            None => None,
        }
    } else if s.len() > 0 && s[0] == '+' {
        parse_digits(s.drop_first(), 0x7fff_ffff_ffff_ffff)
    } else {
        parse_digits(s, 0x7fff_ffff_ffff_ffff)
    }
}

/// Reads a whole number with an optional sign.
pub fn integer(s: &[char]) -> (r: Option<i64>)
    ensures
        r is Some <==> parse_int(s@) is Some,
        r is Some ==> parse_int(s@) == Some(r->0 as int),
{
    if s.len() > 0 && (s[0] == '-' || s[0] == '+') {
        let rest = slice_of(s, 1, s.len());
        assert(rest@ =~= s@.drop_first());
        if s[0] == '-' {
            match digits(rest.as_slice(), 0x8000_0000_0000_0000) {
                None => None,
                Some(v) => if v == 0x8000_0000_0000_0000 {
                    Some(i64::MIN)
                } else {
                    Some(-(v as i64))
                },
            }
        } else {
            match digits(rest.as_slice(), 0x7fff_ffff_ffff_ffff) {
                None => None,
                Some(v) => Some(v as i64),
            }
        }
    } else {
        match digits(s, 0x7fff_ffff_ffff_ffff) {
            None => None,
            Some(v) => Some(v as i64),
        }
    }
}

/// A number of at most four characters has at most four digits, and one digit
/// less with a sign.
pub proof fn lemma_parse_bound(s: Seq<char>)
    requires
        s.len() <= 4,
        parse_int(s) is Some,
    ensures
        -999 <= parse_int(s)->0 <= 9999,
        s.len() <= 2 ==> -9 <= parse_int(s)->0 <= 99,
{
    let t = if s[0] == '-' || s[0] == '+' {
        s.drop_first()
    } else {
        s
    };
    reveal_with_fuel(digits_value, 5);
    assert(all_digits(t));
    assert(forall|i: int| 0 <= i < t.len() ==> is_digit(#[trigger] t[i]));
    let t1 = t.drop_last();
    let t2 = t1.drop_last();
    let t3 = t2.drop_last();
    assert(t.last() == t[t.len() - 1]);
    if t.len() >= 2 {
        assert(t1.last() == t[t.len() - 2]);
    }
    if t.len() >= 3 {
        assert(t2.last() == t[t.len() - 3]);
    }
    if t.len() >= 4 {
        assert(t3.last() == t[t.len() - 4]);
    }
}

/// The digit for a number below ten.
pub open spec fn digit(d: int) -> char {
    (0x30 + d) as char
}

/// A number in decimal, without leading zeros.
pub open spec fn decimal(n: nat) -> Seq<char>
    decreases n,
{
    if n < 10 {
        seq![digit(n as int)]
    } else {
        decimal(n / 10).push(digit((n % 10) as int))
    }
}

/// Writes a number in decimal at the end of a text.
pub fn push_decimal(s: &mut Vec<char>, n: u64)
    ensures
        final(s)@ == old(s)@ + decimal(n as nat),
    decreases n,
{
    if n >= 10 {
        push_decimal(s, n / 10);
    }
    s.push((0x30 + (n % 10) as u8) as char);
    assert(s@ =~= old(s)@ + decimal(n as nat));
}

/// What is written in decimal reads back as the same number.
pub proof fn law_decimal_reads_back(n: nat)
    ensures
        decimal(n).len() > 0,
        all_digits(decimal(n)),
        digits_value(decimal(n)) == n,
    decreases n,
{
    if n < 10 {
        reveal_with_fuel(digits_value, 2);
        assert(decimal(n).drop_last() =~= Seq::<char>::empty());
    } else {
        law_decimal_reads_back(n / 10);
        assert(decimal(n).drop_last() =~= decimal(n / 10));
    }
}

/// Whether `sub` stands in `s` at position `i`.
pub open spec fn stands_at(s: Seq<char>, sub: Seq<char>, i: int) -> bool {
    0 <= i && i + sub.len() <= s.len() && s.subrange(i, i + sub.len()) == sub
}

/// Whether a text occurs in another.
pub open spec fn occurs(s: Seq<char>, sub: Seq<char>) -> bool {
    exists|i: int| #[trigger] stands_at(s, sub, i)
}

fn stands(s: &[char], sub: &[char], i: usize) -> (b: bool)
    requires
        i + sub@.len() <= s@.len(),
    ensures
        b == stands_at(s@, sub@, i as int),
{
    let len: usize = s.len();
    let mut k: usize = 0;
    while k < sub.len()
        invariant
            k <= sub@.len(),
            i + sub@.len() <= s@.len() == len,
            forall|j: int| 0 <= j < k ==> s@[i + j] == #[trigger] sub@[j],
        decreases sub@.len() - k,
    {
        if s[i + k] != sub[k] {
            assert(s@.subrange(i as int, i + sub@.len())[k as int] != sub@[k as int]);
            return false;
        }
        k = k + 1;
    }
    assert(s@.subrange(i as int, i + sub@.len()) =~= sub@);
    true
}

/// Whether a text occurs in another.
pub fn contains(s: &[char], sub: &str) -> (b: bool)
    ensures
        b == occurs(s@, sub@),
{
    let t = chars(sub);
    let n: usize = t.len();
    let len: usize = s.len();
    if n > len {
        return false;
    }
    let last: usize = len - n;
    let mut i: usize = 0;
    while i <= last
        invariant
            i <= last + 1,
            len == s@.len(),
            n == t@.len(),
            t@ == sub@,
            last == len - n,
            forall|j: int| 0 <= j < i ==> !#[trigger] stands_at(s@, sub@, j),
        decreases last + 1 - i,
    {
        if stands(s, t.as_slice(), i) {
            return true;
        }
        if i == last {
            assert forall|j: int| !#[trigger] stands_at(s@, sub@, j) by {}
            return false;
        }
        i = i + 1;
    }
    false
}

/// Whether a text begins with another.
pub fn starts_with(s: &[char], sub: &str) -> (b: bool)
    ensures
        b == stands_at(s@, sub@, 0),
{
    let t = chars(sub);
    if t.len() > s.len() {
        return false;
    }
    stands(s, t.as_slice(), 0)
}

/// The same character `n` times.
pub open spec fn run_of(c: char, n: int) -> Seq<char> {
    Seq::new(
        if n > 0 {
            n as nat
        } else {
            0
        },
        |i: int| c,
    )
}

/// Appends a character `n` times.
pub fn push_run(s: &mut Vec<char>, c: char, n: usize)
    ensures
        final(s)@ == old(s)@ + run_of(c, n as int),
{
    let ghost was = s@;
    let mut i: usize = 0;
    assert(s@ =~= was + run_of(c, 0));
    while i < n
        invariant
            i <= n,
            s@ =~= was + run_of(c, i as int),
        decreases n - i,
    {
        s.push(c);
        i = i + 1;
    }
}

/// Appends a text.
pub fn push_text(s: &mut Vec<char>, t: &str)
    ensures
        final(s)@ == old(s)@ + t@,
{
    let mut c = chars(t);
    s.append(&mut c);
}

/// A text filled up with spaces to at least `n` characters.
pub open spec fn padded(s: Seq<char>, n: int) -> Seq<char> {
    s + run_of(' ', n - s.len())
}

/// Appends a text filled up with spaces to at least `n` characters.
pub fn push_padded(s: &mut Vec<char>, t: &str, n: usize)
    ensures
        final(s)@ == old(s)@ + padded(t@, n as int),
{
    let mut c = chars(t);
    let k: usize = c.len();
    s.append(&mut c);
    let fill: usize = if n > k {
        n - k
    } else {
        0
    };
    let ghost mid = s@;
    push_run(s, ' ', fill);
    assert(s@ =~= old(s)@ + padded(t@, n as int));
}

/// A number in decimal with at least two digits.
pub open spec fn two_digits(n: nat) -> Seq<char> {
    if n < 10 {
        seq!['0'] + decimal(n)
    } else {
        decimal(n)
    }
}

/// Appends a number with at least two digits.
pub fn push_two_digits(s: &mut Vec<char>, n: u64)
    ensures
        final(s)@ == old(s)@ + two_digits(n as nat),
{
    if n < 10 {
        s.push('0');
    }
    push_decimal(s, n);
    assert(s@ =~= old(s)@ + two_digits(n as nat));
}

/// A copy of a text.
pub fn copy(s: &str) -> (r: String)
    ensures
        r@ == s@,
{
    String::from_str(s)
}

/// Blanks, tabs and line ends are white; letters, digits and the marks of paths
/// and numbers are not.
pub proof fn law_what_is_white(c: char)
    ensures
        is_white(' ') && is_white('\t') && is_white('\n') && is_white('\r'),
        0x21 <= c as u32 <= 0x7e ==> !is_white(c),
        c == '\0' ==> !is_white(c),
        is_white(c) ==> c as u32 == 0x20 || 0x09 <= c as u32 <= 0x0d || c as u32 >= 0x85,
{
}

proof fn lemma_trim_start_parts(s: Seq<char>) -> (k: int)
    ensures
        0 <= k <= s.len(),
        trim_start(s) == s.skip(k),
        forall|i: int| 0 <= i < k ==> is_white(#[trigger] s[i]),
        k < s.len() ==> !is_white(s[k]),
    decreases s.len(),
{
    if s.len() > 0 && is_white(s[0]) {
        let t = s.drop_first();
        let k = lemma_trim_start_parts(t);
        assert(t.skip(k) =~= s.skip(k + 1));
        assert forall|i: int| 0 <= i < k + 1 implies is_white(#[trigger] s[i]) by {
            if i > 0 {
                assert(t[i - 1] == s[i]);
            }
        }
        if k < t.len() {
            assert(t[k] == s[k + 1]);
        }
        k + 1
    } else {
        assert(s.skip(0) =~= s);
        0
    }
}

proof fn lemma_trim_end_parts(s: Seq<char>) -> (k: int)
    ensures
        0 <= k <= s.len(),
        trim_end(s) == s.take(k),
        forall|i: int| k <= i < s.len() ==> is_white(#[trigger] s[i]),
        k > 0 ==> !is_white(s[k - 1]),
    decreases s.len(),
{
    if s.len() > 0 && is_white(s.last()) {
        let t = s.drop_last();
        let k = lemma_trim_end_parts(t);
        assert(t.take(k) =~= s.take(k));
        assert forall|i: int| k <= i < s.len() implies is_white(#[trigger] s[i]) by {
            if i < t.len() {
                assert(t[i] == s[i]);
            }
        }
        if k > 0 {
            assert(t[k - 1] == s[k - 1]);
        }
        k
    } else {
        assert(s.take(s.len() as int) =~= s);
        s.len() as int
    }
}

/// Trimming takes the white space at both ends away and nothing else: the
/// result says where what is left begins and ends.
pub proof fn law_trimming_takes_white_ends(s: Seq<char>) -> (p: (int, int))
    ensures
        0 <= p.0 <= p.1 <= s.len(),
        trim(s) == s.subrange(p.0, p.1),
        forall|i: int| 0 <= i < p.0 ==> is_white(#[trigger] s[i]),
        forall|i: int| p.1 <= i < s.len() ==> is_white(#[trigger] s[i]),
        p.0 < p.1 ==> !is_white(s[p.0]) && !is_white(s[p.1 - 1]),
{
    let a = lemma_trim_start_parts(s);
    let t = trim_start(s);
    let k = lemma_trim_end_parts(t);
    assert(t.take(k) =~= s.subrange(a, a + k));
    assert forall|i: int| a + k <= i < s.len() implies is_white(#[trigger] s[i]) by {
        assert(t[i - a] == s[i]);
    }
    if k > 0 {
        assert(t[k - 1] == s[a + k - 1]);
        if is_white(s[a]) {
            assert(a == s.len());
        }
    }
    (a, a + k)
}

/// Trimming one character off the end takes all of it there and nothing else.
/// The result says how much is left.
pub proof fn law_trimming_takes_the_character(s: Seq<char>, c: char) -> (k: int)
    ensures
        0 <= k <= s.len(),
        trim_end_of(s, c) == s.take(k),
        forall|i: int| k <= i < s.len() ==> #[trigger] s[i] == c,
        k > 0 ==> s[k - 1] != c,
    decreases s.len(),
{
    if s.len() > 0 && s.last() == c {
        let t = s.drop_last();
        let k = law_trimming_takes_the_character(t, c);
        assert(t.take(k) =~= s.take(k));
        assert forall|i: int| k <= i < s.len() implies #[trigger] s[i] == c by {
            if i < t.len() {
                assert(t[i] == s[i]);
            }
        }
        k
    } else {
        assert(s.take(s.len() as int) =~= s);
        s.len() as int
    }
}

/// ASCII takes one byte, and no character more than four.
pub proof fn law_bytes_of_characters(c: char, s: Seq<char>)
    ensures
        c as u32 <= 0x7f ==> utf8_len(c) == 1,
        0x80 <= c as u32 <= 0x7ff ==> utf8_len(c) == 2,
        0x800 <= c as u32 <= 0xffff ==> utf8_len(c) == 3,
        c as u32 >= 0x10000 ==> utf8_len(c) == 4,
        bytes_len(s.push(c)) == bytes_len(s) + utf8_len(c),
        bytes_len(Seq::<char>::empty()) == 0,
{
    assert(s.push(c).drop_last() =~= s);
}

/// Digits are worth what they show, and ten times as much with another one
/// behind them.
pub proof fn law_digits_count_in_tens(s: Seq<char>, d: int)
    requires
        0 <= d <= 9,
    ensures
        digit(d) as int == '0' as int + d,
        is_digit(digit(d)),
        digits_value(Seq::<char>::empty()) == 0,
        digits_value(s.push(digit(d))) == 10 * digits_value(s) + d,
        !is_digit('-') && !is_digit('+') && !is_digit('.') && !is_digit(' '),
{
    assert(s.push(digit(d)).drop_last() =~= s);
}

/// What is written in decimals reads as the number, with a minus in front as
/// its negative, and with a plus as the number again; what has no digits is no
/// number.
pub proof fn law_integers_read_back(n: nat)
    requires
        n <= 0x7fff_ffff_ffff_ffff,
    ensures
        parse_int(decimal(n)) == Some(n as int),
        parse_int(seq!['-'] + decimal(n)) == Some(-(n as int)),
        parse_int(seq!['+'] + decimal(n)) == Some(n as int),
        parse_int(Seq::<char>::empty()) is None,
        parse_int(seq!['-']) is None,
        n <= 100 ==> parse_digits(decimal(n), 100) == Some(n as int),
        n > 100 ==> parse_digits(decimal(n), 100) is None,
{
    law_decimal_reads_back(n);
    let t = decimal(n);
    assert(is_digit(t[0]));
    assert((seq!['-'] + t).drop_first() =~= t);
    assert((seq!['+'] + t).drop_first() =~= t);
    assert((seq!['-'] + t)[0] == '-' && (seq!['+'] + t)[0] == '+');
    assert(seq!['-'].drop_first() =~= Seq::<char>::empty());
}

/// A character that is no digit makes a text no number, wherever it stands but
/// at the start.
pub proof fn law_numbers_are_digits_only(s: Seq<char>, i: int)
    requires
        0 < i < s.len(),
        !is_digit(s[i]),
    ensures
        parse_int(s) is None,
{
    if s[0] == '-' || s[0] == '+' {
        assert(s.drop_first()[i - 1] == s[i]);
    }
}

/// A decimal has no zero in front unless it is zero, and one place more from
/// ten times the number on.
pub proof fn law_decimals_are_short(n: nat)
    ensures
        n < 10 ==> decimal(n) == seq![digit(n as int)],
        n >= 10 ==> decimal(n).len() == decimal(n / 10).len() + 1,
        n > 0 ==> decimal(n)[0] != '0',
        n < 100 ==> two_digits(n).len() == 2 && digits_value(two_digits(n)) == n,
    decreases n,
{
    law_decimal_reads_back(n);
    if n >= 10 {
        law_decimals_are_short(n / 10);
        assert(decimal(n)[0] == decimal(n / 10)[0]);
    }
    if n < 10 {
        let t = seq!['0'] + decimal(n);
        assert(t =~= seq!['0'].push(digit(n as int)));
        law_digits_count_in_tens(seq!['0'], n as int);
        assert(seq!['0'] =~= Seq::<char>::empty().push(digit(0)));
        law_digits_count_in_tens(Seq::<char>::empty(), 0);
    }
}

/// Padding adds blanks behind a text up to a width, and cuts nothing off.
pub proof fn law_padding_adds_blanks(s: Seq<char>, n: int, i: int)
    ensures
        padded(s, n).len() == if s.len() < n {
            n
        } else {
            s.len() as int
        },
        padded(s, n).take(s.len() as int) == s,
        s.len() <= i < padded(s, n).len() ==> padded(s, n)[i] == ' ',
{
    assert(padded(s, n).take(s.len() as int) =~= s);
}

/// A text occurs in another one if that is made of something, the text and
/// something else.
pub proof fn law_texts_occur_inside(a: Seq<char>, sub: Seq<char>, b: Seq<char>, s: Seq<char>)
    ensures
        occurs(a + sub + b, sub),
        stands_at(sub + b, sub, 0),
        s.len() < sub.len() ==> !occurs(s, sub),
        s.len() == sub.len() && s != sub ==> !occurs(s, sub) && !stands_at(s, sub, 0),
{
    assert((a + sub + b).subrange(a.len() as int, (a.len() + sub.len()) as int) =~= sub);
    assert(stands_at(a + sub + b, sub, a.len() as int));
    assert((sub + b).subrange(0, sub.len() as int) =~= sub);
    if s.len() == sub.len() {
        assert(s.subrange(0, s.len() as int) =~= s);
    }
}

/// In a text of ASCII characters bytes and characters are the same.
pub proof fn law_ascii_is_cut_by_characters(s: Seq<char>, a: int, z: int)
    requires
        forall|i: int| 0 <= i < s.len() ==> (#[trigger] s[i]) as u32 <= 0x7f,
        0 <= a <= z <= s.len(),
    ensures
        bytes_len(s) == s.len(),
        byte_slice(s, a, z) == Some(s.subrange(a, z)),
{
    assert(s.take(s.len() as int) =~= s);
    lemma_ascii_bytes(s, s.len() as int);
    lemma_ascii_bytes(s, a);
    lemma_ascii_bytes(s, z);
    lemma_char_at_byte(s, a, s.len() as int);
    lemma_char_at_byte(s, z, s.len() as int);
}

proof fn lemma_ascii_bytes(s: Seq<char>, n: int)
    requires
        forall|i: int| 0 <= i < s.len() ==> (#[trigger] s[i]) as u32 <= 0x7f,
        0 <= n <= s.len(),
    ensures
        bytes_len(s.take(n)) == n,
    decreases n,
{
    if n > 0 {
        lemma_ascii_bytes(s, n - 1);
        assert(s.take(n).drop_last() =~= s.take(n - 1));
        assert(s.take(n).last() == s[n - 1]);
    }
}

/// Up to four digits read as their value.
pub proof fn law_few_digits_are_read(t: Seq<char>)
    requires
        0 < t.len() <= 4,
        all_digits(t),
    ensures
        digits_value(t) <= 9999,
        parse_int(t) == Some(digits_value(t) as int),
        trim(t) == t,
{
    reveal_with_fuel(digits_value, 5);
    assert(forall|i: int| 0 <= i < t.len() ==> is_digit(#[trigger] t[i]));
    assert(is_digit(t[0]) && is_digit(t[t.len() - 1]));
    let t1 = t.drop_last();
    let t2 = t1.drop_last();
    let t3 = t2.drop_last();
    assert(t.last() == t[t.len() - 1]);
    if t.len() >= 2 {
        assert(t1.last() == t[t.len() - 2]);
    }
    if t.len() >= 3 {
        assert(t2.last() == t[t.len() - 3]);
    }
    if t.len() >= 4 {
        assert(t3.last() == t[t.len() - 4]);
    }
}

/// Dropping what is white at the start never makes a text longer.
pub proof fn lemma_trim_start_is_shorter(s: Seq<char>)
    ensures
        trim_start(s).len() <= s.len(),
{
    lemma_trim_start_shortens(s);
}

} // verus!
