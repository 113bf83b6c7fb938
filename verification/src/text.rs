//! Text that the library builds and inspects.
use vstd::prelude::*;
use vstd::string::*;

verus! {

/// The character of a decimal digit.
pub open spec fn digit(d: nat) -> char {
    ('0' as u32 + d) as char
}

/// The decimal form of a number, without leading zeros.
pub open spec fn decimal_digits(n: nat) -> Seq<char>
    decreases n,
{
    if n < 10 {
        seq![digit(n)]
    } else {
        decimal_digits(n / 10).push(digit(n % 10))
    }
}

fn digit_text(d: usize) -> (r: &'static str)
    requires
        d < 10,
    ensures
        r@ == seq![digit(d as nat)],
{
    proof {
        reveal_strlit("0");
        reveal_strlit("1");
        reveal_strlit("2");
        reveal_strlit("3");
        reveal_strlit("4");
        reveal_strlit("5");
        reveal_strlit("6");
        reveal_strlit("7");
        reveal_strlit("8");
        reveal_strlit("9");
    }
    match d {
        0 => "0",
        1 => "1",
        2 => "2",
        3 => "3",
        4 => "4",
        5 => "5",
        6 => "6",
        7 => "7",
        8 => "8",
        _ => "9",
    }
}

/// Writes a number in decimal.
pub fn decimal(n: usize) -> (r: String)
    ensures
        r@ == decimal_digits(n as nat),
    decreases n,
{
    if n < 10 {
        String::from_str(digit_text(n))
    } else {
        let mut r = decimal(n / 10);
        r.append(digit_text(n % 10));
        assert(r@ == decimal_digits(n as nat));
        r
    }
}

/// A character in lower case, where it is an ASCII capital.
pub open spec fn ascii_lower(c: char) -> char {
    if 'A' <= c && c <= 'Z' {
        (c as u8 + 32) as char
    } else {
        c
    }
}

/// A text with its ASCII capitals in lower case.
pub open spec fn ascii_lowercase(s: Seq<char>) -> Seq<char> {
    s.map_values(|c: char| ascii_lower(c))
}

/// Whether `part` occurs in `s` at position `i`.
pub open spec fn occurs_at(s: Seq<char>, part: Seq<char>, i: int) -> bool {
    &&& 0 <= i
    &&& i + part.len() <= s.len()
    &&& s.subrange(i, i + part.len()) == part
}

/// Whether `part` occurs in `s`.
pub open spec fn contains_text(s: Seq<char>, part: Seq<char>) -> bool {
    exists|i: int| occurs_at(s, part, i)
}

/// The characters of a text, ASCII capitals in lower case.
pub fn lowercase_chars(s: &str) -> (r: Vec<char>)
    ensures
        r@ == ascii_lowercase(s@),
{
    let mut r: Vec<char> = Vec::new();
    for c in it: s.chars()
        invariant
            it.seq() == s@,
            r@ == ascii_lowercase(s@.take(it.index())),
    {
        let ghost n = it.index();
        r.push(
            if 'A' <= c && c <= 'Z' {
                (c as u8 + 32) as char
            } else {
                c
            },
        );
        proof {
            assert(s@.take(n + 1) =~= s@.take(n).push(c));
            assert(r@ =~= ascii_lowercase(s@.take(n + 1)));
        }
    }
    proof {
        assert(s@.take(s@.len() as int) =~= s@);
    }
    r
}

/// Whether a text occurs in a sequence of characters.
pub fn contains(s: &Vec<char>, part: &str) -> (r: bool)
    ensures
        r == contains_text(s@, part@),
{
    let len: usize = part.unicode_len();
    if len > s.len() {
        return false;
    }
    let mut i: usize = 0;
    while i <= s.len() - len
        invariant
            len == part@.len(),
            len <= s.len(),
            i <= s.len() - len + 1,
            forall|k: int| 0 <= k < i ==> !occurs_at(s@, part@, k),
        decreases s.len() - len + 1 - i,
    {
        let mut j: usize = 0;
        while j < len && s[i + j] == part.get_char(j)
            invariant
                len == part@.len(),
                i + len <= s.len(),
                j <= len,
                forall|k: int| 0 <= k < j ==> s@[i + k] == part@[k],
            decreases len - j,
        {
            j = j + 1;
        }
        if j == len {
            assert(s@.subrange(i as int, i + len) =~= part@);
            assert(occurs_at(s@, part@, i as int));
            return true;
        }
        assert(!occurs_at(s@, part@, i as int)) by {
            assert(s@.subrange(i as int, i + len)[j as int] == s@[i + j]);
        }
        i = i + 1;
    }
    assert forall|k: int| !occurs_at(s@, part@, k) by {
        if 0 <= k && k + part@.len() <= s@.len() {
            assert(k < i);
        }
    }
    false
}

} // verus!
