//! Verified building blocks for text: character-level equality, substring
//! search, trimming, and decimal rendering of integers. All contracts speak
//! about the `Seq<char>` view of strings.

use vstd::prelude::*;
use vstd::string::StrSliceExecFns;
use vstd::string::StringExecFns;

verus! {

/// The needle occurs in the haystack starting at position `i`.
pub open spec fn match_at(hay: Seq<char>, needle: Seq<char>, i: int) -> bool {
    &&& 0 <= i
    &&& i + needle.len() <= hay.len()
    &&& forall|j: int| 0 <= j < needle.len() ==> hay[i + j] == needle[j]
}

/// The needle occurs somewhere in the haystack.
pub open spec fn contains_seq(hay: Seq<char>, needle: Seq<char>) -> bool {
    exists|i: int| match_at(hay, needle, i)
}

/// The haystack begins with the needle.
pub open spec fn starts_with_seq(hay: Seq<char>, needle: Seq<char>) -> bool {
    match_at(hay, needle, 0)
}

/// Index of the first occurrence of `needle` at or after `from`, if any.
pub open spec fn spec_find(hay: Seq<char>, needle: Seq<char>, from: int) -> Option<int>
    decreases hay.len() - from,
{
    if from < 0 || from + needle.len() > hay.len() {
        None
    } else if match_at(hay, needle, from) {
        Some(from)
    } else {
        spec_find(hay, needle, from + 1)
    }
}

pub proof fn lemma_spec_find_some(hay: Seq<char>, needle: Seq<char>, from: int)
    requires
        from >= 0,
    ensures
        match spec_find(hay, needle, from) {
            Some(i) => match_at(hay, needle, i) && from <= i,
            None => forall|j: int| from <= j ==> !match_at(hay, needle, j),
        },
    decreases hay.len() - from,
{
    if from < 0 || from + needle.len() > hay.len() {
        assert forall|j: int| from <= j implies !match_at(hay, needle, j) by {
            if match_at(hay, needle, j) {
                assert(j + needle.len() <= hay.len());
            }
        }
    } else if match_at(hay, needle, from) {
    } else {
        lemma_spec_find_some(hay, needle, from + 1);
    }
}

/// String equality at the character level.
pub fn str_eq(a: &str, b: &str) -> (r: bool)
    ensures
        r == (a@ == b@),
{
    let alen = a.unicode_len();
    let blen = b.unicode_len();
    if alen != blen {
        return false;
    }
    let mut i: usize = 0;
    while i < alen
        invariant
            i <= alen,
            alen == a@.len(),
            alen == b@.len(),
            forall|j: int| 0 <= j < i ==> a@[j] == b@[j],
        decreases alen - i,
    {
        if a.get_char(i) != b.get_char(i) {
            return false;
        }
        i += 1;
    }
    proof {
        assert(a@ =~= b@);
    }
    true
}

/// Does the needle occur at position `i` of the haystack?
pub fn match_at_exec(hay: &str, needle: &str, i: usize) -> (r: bool)
    ensures
        r == match_at(hay@, needle@, i as int),
{
    let hlen = hay.unicode_len();
    let nlen = needle.unicode_len();
    if i > hlen || nlen > hlen - i {
        return false;
    }
    let mut j: usize = 0;
    while j < nlen
        invariant
            j <= nlen,
            i + nlen <= hlen,
            hlen == hay@.len(),
            nlen == needle@.len(),
            forall|k: int| 0 <= k < j ==> hay@[i + k] == needle@[k],
        decreases nlen - j,
    {
        if hay.get_char(i + j) != needle.get_char(j) {
            return false;
        }
        j += 1;
    }
    true
}

/// First occurrence of `needle` at or after `from`.
pub fn find_from(hay: &str, needle: &str, from: usize) -> (r: Option<usize>)
    ensures
        match r {
            Some(i) => Some(i as int) == spec_find(hay@, needle@, from as int),
            None => spec_find(hay@, needle@, from as int) is None,
        },
{
    let hlen = hay.unicode_len();
    let nlen = needle.unicode_len();
    if nlen > hlen || from > hlen - nlen {
        return None;
    }
    let mut i: usize = from;
    while i <= hlen - nlen
        invariant
            from <= i,
            nlen <= hlen,
            i <= hlen - nlen + 1,
            hlen == hay@.len(),
            nlen == needle@.len(),
            spec_find(hay@, needle@, from as int) == spec_find(hay@, needle@, i as int),
        decreases hlen - nlen - i + 1,
    {
        if match_at_exec(hay, needle, i) {
            return Some(i);
        }
        i += 1;
    }
    None
}

/// Does the needle occur anywhere in the haystack?
pub fn contains_sub(hay: &str, needle: &str) -> (r: bool)
    ensures
        r == contains_seq(hay@, needle@),
{
    match find_from(hay, needle, 0) {
        Some(i) => {
            proof {
                lemma_spec_find_some(hay@, needle@, 0);
            }
            true
        },
        None => {
            proof {
                lemma_spec_find_some(hay@, needle@, 0);
                assert forall|i: int| !match_at(hay@, needle@, i) by {
                    if match_at(hay@, needle@, i) {
                        assert(0 <= i);
                    }
                }
            }
            false
        },
    }
}

/// Does the haystack begin with the needle?
pub fn starts_with(hay: &str, needle: &str) -> (r: bool)
    ensures
        r == starts_with_seq(hay@, needle@),
{
    match_at_exec(hay, needle, 0)
}

/// The haystack ends with the needle.
pub open spec fn ends_with_seq(hay: Seq<char>, needle: Seq<char>) -> bool {
    match_at(hay, needle, hay.len() - needle.len())
}

/// Does the haystack end with the needle?
pub fn ends_with(hay: &str, needle: &str) -> (r: bool)
    ensures
        r == ends_with_seq(hay@, needle@),
{
    let hlen = hay.unicode_len();
    let nlen = needle.unicode_len();
    if nlen > hlen {
        return false;
    }
    match_at_exec(hay, needle, hlen - nlen)
}

/// Whitespace as far as trimming is concerned.
pub open spec fn is_space_char(c: char) -> bool {
    c == ' ' || c == '\t' || c == '\n' || c == '\r'
}

pub fn is_space_exec(c: char) -> (r: bool)
    ensures
        r == is_space_char(c),
{
    c == ' ' || c == '\t' || c == '\n' || c == '\r'
}

pub open spec fn trim_front(s: Seq<char>) -> Seq<char>
    decreases s.len(),
{
    if s.len() > 0 && is_space_char(s[0]) {
        trim_front(s.subrange(1, s.len() as int))
    } else {
        s
    }
}

pub open spec fn trim_back(s: Seq<char>) -> Seq<char>
    decreases s.len(),
{
    if s.len() > 0 && is_space_char(s[s.len() - 1]) {
        trim_back(s.subrange(0, s.len() - 1))
    } else {
        s
    }
}

/// The string with leading and trailing whitespace removed.
pub open spec fn spec_trim(s: Seq<char>) -> Seq<char> {
    trim_back(trim_front(s))
}

proof fn lemma_trim_front_at(s: Seq<char>, a: int)
    requires
        0 <= a <= s.len(),
        forall|j: int| 0 <= j < a ==> is_space_char(s[j]),
        a < s.len() ==> !is_space_char(s[a]),
    ensures
        trim_front(s) == s.subrange(a, s.len() as int),
    decreases a,
{
    if a == 0 {
        assert(s.subrange(0, s.len() as int) =~= s);
    } else {
        let s1 = s.subrange(1, s.len() as int);
        lemma_trim_front_at(s1, a - 1);
        assert(s1.subrange(a - 1, s1.len() as int) =~= s.subrange(a, s.len() as int));
    }
}

proof fn lemma_trim_back_at(s: Seq<char>, b: int)
    requires
        0 <= b <= s.len(),
        forall|j: int| b <= j < s.len() ==> is_space_char(s[j]),
        b > 0 ==> !is_space_char(s[b - 1]),
    ensures
        trim_back(s) == s.subrange(0, b),
    decreases s.len() - b,
{
    if b == s.len() {
        assert(s.subrange(0, s.len() as int) =~= s);
    } else {
        let s1 = s.subrange(0, s.len() - 1);
        lemma_trim_back_at(s1, b);
        assert(s1.subrange(0, b) =~= s.subrange(0, b));
    }
}

/// Copy of the string with leading and trailing whitespace removed.
pub fn trim_owned(s: &str) -> (r: String)
    ensures
        r@ == spec_trim(s@),
{
    let n = s.unicode_len();
    let mut a: usize = 0;
    while a < n && is_space_exec(s.get_char(a))
        invariant
            0 <= a <= n,
            n == s@.len(),
            forall|j: int| 0 <= j < a ==> is_space_char(s@[j]),
        decreases n - a,
    {
        a += 1;
    }
    let mut b: usize = n;
    while b > a && is_space_exec(s.get_char(b - 1))
        invariant
            a <= b <= n,
            n == s@.len(),
            forall|j: int| 0 <= j < a ==> is_space_char(s@[j]),
            forall|j: int| b <= j < n ==> is_space_char(s@[j]),
        decreases b,
    {
        b -= 1;
    }
    let mid = s.substring_char(a, b);
    proof {
        lemma_trim_front_at(s@, a as int);
        let t = s@.subrange(a as int, n as int);
        lemma_trim_back_at(t, b - a);
        assert(t.subrange(0, b - a) =~= s@.subrange(a as int, b as int));
    }
    mid.to_owned()
}

/// The decimal digit character for `d`.
pub open spec fn digit_char(d: int) -> char {
    if d == 0 {
        '0'
    } else if d == 1 {
        '1'
    } else if d == 2 {
        '2'
    } else if d == 3 {
        '3'
    } else if d == 4 {
        '4'
    } else if d == 5 {
        '5'
    } else if d == 6 {
        '6'
    } else if d == 7 {
        '7'
    } else if d == 8 {
        '8'
    } else {
        '9'
    }
}

/// Decimal representation of a natural number, most significant digit first.
pub open spec fn spec_dec(n: nat) -> Seq<char>
    decreases n,
{
    if n < 10 {
        seq![digit_char(n as int)]
    } else {
        spec_dec(n / 10) + seq![digit_char((n % 10) as int)]
    }
}

/// Appends the digit character for `d` to `s`.
pub fn append_digit(s: &mut String, d: u64)
    requires
        d < 10,
    ensures
        final(s)@ == old(s)@ + seq![digit_char(d as int)],
{
    if d == 0 {
        s.append("0");
        proof { reveal_strlit("0"); assert("0"@ =~= seq![digit_char(0)]); }
    } else if d == 1 {
        s.append("1");
        proof { reveal_strlit("1"); assert("1"@ =~= seq![digit_char(1)]); }
    } else if d == 2 {
        s.append("2");
        proof { reveal_strlit("2"); assert("2"@ =~= seq![digit_char(2)]); }
    } else if d == 3 {
        s.append("3");
        proof { reveal_strlit("3"); assert("3"@ =~= seq![digit_char(3)]); }
    } else if d == 4 {
        s.append("4");
        proof { reveal_strlit("4"); assert("4"@ =~= seq![digit_char(4)]); }
    } else if d == 5 {
        s.append("5");
        proof { reveal_strlit("5"); assert("5"@ =~= seq![digit_char(5)]); }
    } else if d == 6 {
        s.append("6");
        proof { reveal_strlit("6"); assert("6"@ =~= seq![digit_char(6)]); }
    } else if d == 7 {
        s.append("7");
        proof { reveal_strlit("7"); assert("7"@ =~= seq![digit_char(7)]); }
    } else if d == 8 {
        s.append("8");
        proof { reveal_strlit("8"); assert("8"@ =~= seq![digit_char(8)]); }
    } else {
        s.append("9");
        proof { reveal_strlit("9"); assert("9"@ =~= seq![digit_char(9)]); }
    }
}

fn u64_dec_into(n: u64, s: &mut String)
    ensures
        final(s)@ == old(s)@ + spec_dec(n as nat),
    decreases n,
{
    if n < 10 {
        append_digit(s, n);
    } else {
        u64_dec_into(n / 10, s);
        append_digit(s, n % 10);
    }
}

/// Decimal rendering of a `u64`.
pub fn u64_to_dec(n: u64) -> (r: String)
    ensures
        r@ == spec_dec(n as nat),
{
    let mut s = String::new();
    u64_dec_into(n, &mut s);
    s
}

/// Decimal rendering of a `usize`.
pub fn usize_to_dec(n: usize) -> (r: String)
    ensures
        r@ == spec_dec(n as nat),
{
    u64_to_dec(n as u64)
}

/// Decimal representation of a signed integer.
pub open spec fn spec_dec_int(v: int) -> Seq<char> {
    if v >= 0 {
        spec_dec(v as nat)
    } else {
        seq!['-'] + spec_dec((-v) as nat)
    }
}

/// Decimal rendering of an `i32`, with a leading minus sign if negative.
pub fn i32_to_dec(v: i32) -> (r: String)
    ensures
        r@ == spec_dec_int(v as int),
{
    if v >= 0 {
        u64_to_dec(v as u64)
    } else {
        let mut s = String::new();
        s.append("-");
        proof { reveal_strlit("-"); assert("-"@ =~= seq!['-']); }
        let mag: u64 = (-(v as i64)) as u64;
        u64_dec_into(mag, &mut s);
        s
    }
}

/// ASCII uppercase of one character; other characters unchanged.
pub open spec fn to_upper_char(c: char) -> char {
    if c == 'a' { 'A' } else if c == 'b' { 'B' } else if c == 'c' { 'C' }
    else if c == 'd' { 'D' } else if c == 'e' { 'E' } else if c == 'f' { 'F' }
    else if c == 'g' { 'G' } else if c == 'h' { 'H' } else if c == 'i' { 'I' }
    else if c == 'j' { 'J' } else if c == 'k' { 'K' } else if c == 'l' { 'L' }
    else if c == 'm' { 'M' } else if c == 'n' { 'N' } else if c == 'o' { 'O' }
    else if c == 'p' { 'P' } else if c == 'q' { 'Q' } else if c == 'r' { 'R' }
    else if c == 's' { 'S' } else if c == 't' { 'T' } else if c == 'u' { 'U' }
    else if c == 'v' { 'V' } else if c == 'w' { 'W' } else if c == 'x' { 'X' }
    else if c == 'y' { 'Y' } else if c == 'z' { 'Z' } else { c }
}

/// ASCII uppercase of a whole string.
pub open spec fn spec_upper(s: Seq<char>) -> Seq<char> {
    s.map(|i: int, c: char| to_upper_char(c))
}

fn append_upper_char(s: &mut String, src: &str, i: usize)
    requires
        i < src@.len(),
        src@.len() <= usize::MAX,
    ensures
        final(s)@ == old(s)@ + seq![to_upper_char(src@[i as int])],
{
    let c = src.get_char(i);
    if c == 'a' { s.append("A"); proof { reveal_strlit("A"); assert("A"@ =~= seq![to_upper_char('a')]); } }
    else if c == 'b' { s.append("B"); proof { reveal_strlit("B"); assert("B"@ =~= seq![to_upper_char('b')]); } }
    else if c == 'c' { s.append("C"); proof { reveal_strlit("C"); assert("C"@ =~= seq![to_upper_char('c')]); } }
    else if c == 'd' { s.append("D"); proof { reveal_strlit("D"); assert("D"@ =~= seq![to_upper_char('d')]); } }
    else if c == 'e' { s.append("E"); proof { reveal_strlit("E"); assert("E"@ =~= seq![to_upper_char('e')]); } }
    else if c == 'f' { s.append("F"); proof { reveal_strlit("F"); assert("F"@ =~= seq![to_upper_char('f')]); } }
    else if c == 'g' { s.append("G"); proof { reveal_strlit("G"); assert("G"@ =~= seq![to_upper_char('g')]); } }
    else if c == 'h' { s.append("H"); proof { reveal_strlit("H"); assert("H"@ =~= seq![to_upper_char('h')]); } }
    else if c == 'i' { s.append("I"); proof { reveal_strlit("I"); assert("I"@ =~= seq![to_upper_char('i')]); } }
    else if c == 'j' { s.append("J"); proof { reveal_strlit("J"); assert("J"@ =~= seq![to_upper_char('j')]); } }
    else if c == 'k' { s.append("K"); proof { reveal_strlit("K"); assert("K"@ =~= seq![to_upper_char('k')]); } }
    else if c == 'l' { s.append("L"); proof { reveal_strlit("L"); assert("L"@ =~= seq![to_upper_char('l')]); } }
    else if c == 'm' { s.append("M"); proof { reveal_strlit("M"); assert("M"@ =~= seq![to_upper_char('m')]); } }
    else if c == 'n' { s.append("N"); proof { reveal_strlit("N"); assert("N"@ =~= seq![to_upper_char('n')]); } }
    else if c == 'o' { s.append("O"); proof { reveal_strlit("O"); assert("O"@ =~= seq![to_upper_char('o')]); } }
    else if c == 'p' { s.append("P"); proof { reveal_strlit("P"); assert("P"@ =~= seq![to_upper_char('p')]); } }
    else if c == 'q' { s.append("Q"); proof { reveal_strlit("Q"); assert("Q"@ =~= seq![to_upper_char('q')]); } }
    else if c == 'r' { s.append("R"); proof { reveal_strlit("R"); assert("R"@ =~= seq![to_upper_char('r')]); } }
    else if c == 's' { s.append("S"); proof { reveal_strlit("S"); assert("S"@ =~= seq![to_upper_char('s')]); } }
    else if c == 't' { s.append("T"); proof { reveal_strlit("T"); assert("T"@ =~= seq![to_upper_char('t')]); } }
    else if c == 'u' { s.append("U"); proof { reveal_strlit("U"); assert("U"@ =~= seq![to_upper_char('u')]); } }
    else if c == 'v' { s.append("V"); proof { reveal_strlit("V"); assert("V"@ =~= seq![to_upper_char('v')]); } }
    else if c == 'w' { s.append("W"); proof { reveal_strlit("W"); assert("W"@ =~= seq![to_upper_char('w')]); } }
    else if c == 'x' { s.append("X"); proof { reveal_strlit("X"); assert("X"@ =~= seq![to_upper_char('x')]); } }
    else if c == 'y' { s.append("Y"); proof { reveal_strlit("Y"); assert("Y"@ =~= seq![to_upper_char('y')]); } }
    else if c == 'z' { s.append("Z"); proof { reveal_strlit("Z"); assert("Z"@ =~= seq![to_upper_char('z')]); } }
    else {
        let piece = src.substring_char(i, i + 1);
        s.append(piece);
        proof {
            assert(piece@ =~= seq![src@[i as int]]);
        }
    }
}

/// ASCII-uppercased copy of a string.
pub fn ascii_upper(s: &str) -> (r: String)
    ensures
        r@ == spec_upper(s@),
{
    let n = s.unicode_len();
    let mut out = String::new();
    let mut i: usize = 0;
    while i < n
        invariant
            i <= n,
            n == s@.len(),
            out@ == spec_upper(s@).subrange(0, i as int),
        decreases n - i,
    {
        append_upper_char(&mut out, s, i);
        proof {
            assert(out@ =~= spec_upper(s@).subrange(0, i + 1));
        }
        i += 1;
    }
    proof {
        assert(spec_upper(s@).subrange(0, n as int) =~= spec_upper(s@));
    }
    out
}

} // verus!
