//! Character-level helpers over `str`/`String` views.
use vstd::prelude::*;

verus! {

broadcast use vstd::string::group_string_axioms;

/// Appends one character to a string.
/// Trusted: calls `String::push`, which std documents as appending `c` to the end.
#[verifier::external_body]
pub(crate) fn push_char(s: &mut String, c: char)
    ensures
        final(s)@ == old(s)@.push(c),
{
    s.push(c);
}

/// The characters of a string slice, in order.
pub fn chars_of(s: &str) -> (v: Vec<char>)
    ensures
        v@ == s@,
{
    let mut v: Vec<char> = Vec::new();
    for c in it: s.chars()
        invariant
            v@ == it.seq().take(it.index() as int),
            it.seq() == s@,
    {
        v.push(c);
    }
    v
}


/// Unicode `White_Space`, the class that `char::is_whitespace` tests.
pub open spec fn is_white_space(c: char) -> bool {
    let u = c as int;
    (9 <= u <= 13) || u == 0x20 || u == 0x85 || u == 0xA0 || u == 0x1680 || (0x2000 <= u
        <= 0x200A) || u == 0x2028 || u == 0x2029 || u == 0x202F || u == 0x205F || u == 0x3000
}

/// `s` without trailing white space.
pub open spec fn trim_end(s: Seq<char>) -> Seq<char>
    decreases s.len(),
{
    if s.len() > 0 && is_white_space(s.last()) {
        trim_end(s.drop_last())
    } else {
        s
    }
}

/// `s` without leading white space.
pub open spec fn trim_start(s: Seq<char>) -> Seq<char>
    decreases s.len(),
{
    if s.len() > 0 && is_white_space(s[0]) {
        trim_start(s.drop_first())
    } else {
        s
    }
}

/// `s` without leading or trailing white space.
pub open spec fn trim(s: Seq<char>) -> Seq<char> {
    trim_start(trim_end(s))
}

pub fn white_space(c: char) -> (b: bool)
    ensures
        b == is_white_space(c),
{
    let u = c as u32;
    (9 <= u && u <= 13) || u == 0x20 || u == 0x85 || u == 0xA0 || u == 0x1680 || (0x2000 <= u
        && u <= 0x200A) || u == 0x2028 || u == 0x2029 || u == 0x202F || u == 0x205F || u == 0x3000
}

/// The end of `s` once trailing white space is dropped.
fn trimmed_end(chars: &Vec<char>) -> (e: usize)
    ensures
        e <= chars.len(),
        trim_end(chars@) == chars@.take(e as int),
        e > 0 ==> !is_white_space(chars@[e - 1]),
{
    let mut e = chars.len();
    proof {
        assert(chars@.take(e as int) =~= chars@);
    }
    while e > 0 && white_space(chars[e - 1])
        invariant
            e <= chars.len(),
            trim_end(chars@) == trim_end(chars@.take(e as int)),
        decreases e,
    {
        proof {
            assert(chars@.take(e as int).drop_last() =~= chars@.take(e - 1));
        }
        e = e - 1;
    }
    e
}

/// A string slice without its leading and trailing white space.
pub fn trim_str(s: &str) -> (r: &str)
    ensures
        r@ == trim(s@),
{
    let chars = chars_of(s);
    let e = trimmed_end(&chars);
    let mut b: usize = 0;
    proof {
        assert(chars@.subrange(0, e as int) =~= chars@.take(e as int));
    }
    while b < e && white_space(chars[b])
        invariant
            b <= e <= chars.len(),
            trim(chars@) == trim_start(chars@.subrange(b as int, e as int)),
        decreases e - b,
    {
        proof {
            assert(chars@.subrange(b as int, e as int).drop_first() =~= chars@.subrange(
                b + 1,
                e as int,
            ));
        }
        b = b + 1;
    }
    proof {
        let t = chars@.subrange(b as int, e as int);
        if t.len() > 0 {
            assert(t[0] == chars@[b as int]);
        }
    }
    s.substring_char(b, e)
}

/// A string slice without its trailing white space.
pub fn trim_end_str(s: &str) -> (r: &str)
    ensures
        r@ == trim_end(s@),
{
    let chars = chars_of(s);
    let e = trimmed_end(&chars);
    s.substring_char(0, e)
}

} // verus!
