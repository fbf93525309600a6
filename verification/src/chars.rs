//! Character-level helpers: alphabetic classification, conversions between
//! `String` and `Vec<char>`, and decimal rendering of counters.

use vstd::prelude::*;

verus! {

/// Whether a character has the Unicode `Alphabetic` property, as decided by
/// `char::is_alphabetic`.
pub uninterp spec fn char_alpha(c: char) -> bool;

/// Relies on `char::is_alphabetic`: the result depends on the character alone.
#[verifier::external_body]
pub fn is_alpha(c: char) -> (r: bool)
    ensures
        r == char_alpha(c),
{
    c.is_alphabetic()
}

/// Relies on `String::push`: appends the given character to the end.
#[verifier::external_body]
pub fn push_char(s: &mut String, c: char)
    ensures
        final(s)@ == old(s)@.push(c),
{
    s.push(c)
}

/// The characters of a string slice, one vector element per character.
pub fn chars_of(s: &str) -> (r: Vec<char>)
    ensures
        r@ == s@,
{
    let n = s.unicode_len();
    let mut r: Vec<char> = Vec::new();
    let mut i: usize = 0;
    while i < n
        invariant
            n == s@.len(),
            i <= n,
            r@ == s@.subrange(0, i as int),
        decreases n - i,
    {
        r.push(s.get_char(i));
        i = i + 1;
        proof {
            assert(r@ =~= s@.subrange(0, i as int));
        }
    }
    proof {
        assert(r@ =~= s@);
    }
    r
}

/// A string holding exactly the given characters.
pub fn string_of(cs: &Vec<char>) -> (r: String)
    ensures
        r@ == cs@,
{
    let mut r = String::new();
    let mut i: usize = 0;
    while i < cs.len()
        invariant
            i <= cs@.len(),
            r@ == cs@.subrange(0, i as int),
        decreases cs@.len() - i,
    {
        push_char(&mut r, cs[i]);
        i = i + 1;
        proof {
            assert(r@ =~= cs@.subrange(0, i as int));
        }
    }
    proof {
        assert(r@ =~= cs@);
    }
    r
}

/// Whether two character vectors hold the same characters.
pub fn chars_eq(a: &Vec<char>, b: &Vec<char>) -> (r: bool)
    ensures
        r == (a@ == b@),
{
    if a.len() != b.len() {
        proof {
            assert(a@.len() != b@.len());
        }
        return false;
    }
    let mut i: usize = 0;
    while i < a.len()
        invariant
            a@.len() == b@.len(),
            i <= a@.len(),
            forall|j: int| 0 <= j < i ==> a@[j] == b@[j],
        decreases a@.len() - i,
    {
        if a[i] != b[i] {
            return false;
        }
        i = i + 1;
    }
    proof {
        assert(a@ =~= b@);
    }
    true
}

/// Appends `src[a..b]` to `dst`.
pub fn append_range(dst: &mut Vec<char>, src: &Vec<char>, a: usize, b: usize)
    requires
        a <= b <= src@.len(),
    ensures
        final(dst)@ == old(dst)@ + src@.subrange(a as int, b as int),
{
    let mut i: usize = a;
    while i < b
        invariant
            a <= i <= b <= src@.len(),
            dst@ == old(dst)@ + src@.subrange(a as int, i as int),
        decreases b - i,
    {
        dst.push(src[i]);
        i = i + 1;
        proof {
            assert(dst@ =~= old(dst)@ + src@.subrange(a as int, i as int));
        }
    }
    proof {
        assert(dst@ =~= old(dst)@ + src@.subrange(a as int, b as int));
    }
}

/// Appends all of `src` to `dst`.
pub fn append_all(dst: &mut Vec<char>, src: &Vec<char>)
    ensures
        final(dst)@ == old(dst)@ + src@,
{
    append_range(dst, src, 0, src.len());
    proof {
        assert(src@.subrange(0, src@.len() as int) =~= src@);
    }
}

/// The characters `src[a..b]` as a fresh vector.
pub fn sub_vec(src: &Vec<char>, a: usize, b: usize) -> (r: Vec<char>)
    requires
        a <= b <= src@.len(),
    ensures
        r@ == src@.subrange(a as int, b as int),
{
    let mut r: Vec<char> = Vec::new();
    append_range(&mut r, src, a, b);
    proof {
        assert(Seq::<char>::empty() + src@.subrange(a as int, b as int) =~= src@.subrange(
            a as int,
            b as int,
        ));
    }
    r
}

/// The digit character for a value below ten.
pub open spec fn spec_digit(d: int) -> char {
    if d == 0 {
        '0'
    } else if d == 1 {
        '1'
    } else if d == 2 {
        '2'
    } else if d == 3 {
        '3'
    } else if d == 4 {
        '4'
    } else if d == 5 {
        '5'
    } else if d == 6 {
        '6'
    } else if d == 7 {
        '7'
    } else if d == 8 {
        '8'
    } else {
        '9'
    }
}

/// The usual decimal rendering of a non-negative integer.
pub open spec fn spec_dec(n: int) -> Seq<char>
    decreases n,
{
    if n < 10 {
        seq![spec_digit(n)]
    } else {
        spec_dec(n / 10).push(spec_digit(n % 10))
    }
}

fn digit_char(d: usize) -> (c: char)
    requires
        d < 10,
    ensures
        c == spec_digit(d as int),
{
    match d {
        0 => '0',
        1 => '1',
        2 => '2',
        3 => '3',
        4 => '4',
        5 => '5',
        6 => '6',
        7 => '7',
        8 => '8',
        _ => '9',
    }
}

/// The decimal digits of `n`, most significant first.
pub fn dec_chars(n: usize) -> (r: Vec<char>)
    ensures
        r@ == spec_dec(n as int),
    decreases n,
{
    let d: usize = n % 10;
    if n < 10 {
        let mut v: Vec<char> = Vec::new();
        v.push(digit_char(d));
        proof {
            assert(v@ =~= spec_dec(n as int));
        }
        v
    } else {
        let mut v = dec_chars(n / 10);
        v.push(digit_char(d));
        v
    }
}

pub proof fn lemma_spec_dec_len(n: int)
    ensures
        spec_dec(n).len() >= 1,
    decreases n,
{
    if n >= 10 {
        lemma_spec_dec_len(n / 10);
    }
}

/// Distinct counters render to distinct digit strings.
pub proof fn lemma_spec_dec_injective(a: int, b: int)
    requires
        0 <= a,
        0 <= b,
        spec_dec(a) == spec_dec(b),
    ensures
        a == b,
    decreases a,
{
    lemma_spec_dec_len(a);
    lemma_spec_dec_len(b);
    if a < 10 && b < 10 {
        assert(spec_dec(a)[0] == spec_digit(a));
        assert(spec_dec(b)[0] == spec_digit(b));
    } else if a < 10 {
        lemma_spec_dec_len(b / 10);
        assert(spec_dec(b).len() >= 2);
    } else if b < 10 {
        lemma_spec_dec_len(a / 10);
        assert(spec_dec(a).len() >= 2);
    } else {
        assert(spec_dec(a).last() == spec_digit(a % 10));
        assert(spec_dec(b).last() == spec_digit(b % 10));
        assert(spec_dec(a).drop_last() =~= spec_dec(a / 10));
        assert(spec_dec(b).drop_last() =~= spec_dec(b / 10));
        lemma_spec_dec_injective(a / 10, b / 10);
    }
}

/// Membership in a pushed sequence of character sequences.
pub proof fn lemma_contains_push(s: Seq<Seq<char>>, x: Seq<char>, w: Seq<char>)
    ensures
        s.push(x).contains(w) <==> (s.contains(w) || w == x),
{
    if s.contains(w) {
        let i = choose|i: int| 0 <= i < s.len() && s[i] == w;
        assert(s.push(x)[i] == w);
    }
    if w == x {
        assert(s.push(x)[s.len() as int] == w);
    }
    if s.push(x).contains(w) {
        let i = choose|i: int| 0 <= i < s.push(x).len() && s.push(x)[i] == w;
        if i < s.len() {
            assert(s[i] == w);
        }
    }
}

} // verus!
