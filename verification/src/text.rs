use vstd::prelude::*;

verus! {

/// Relies on str::chars together with Iterator::collect for Vec: the
/// characters of a string slice, in order, are exactly its view.
#[verifier::external_body]
pub fn str_chars(s: &str) -> (v: Vec<char>)
    ensures
        v@ == s@,
{
    s.chars().collect()
}

/// Relies on Iterator::collect for String: concatenating the characters of
/// `v` in order yields a string whose character sequence is the view of `v`.
#[verifier::external_body]
pub fn chars_string(v: &Vec<char>) -> (s: String)
    ensures
        s@ == v@,
{
    v.iter().collect()
}

/// The Unicode white-space characters: the set that char::is_whitespace
/// recognizes.
pub open spec fn ws_char(c: char) -> bool {
    let n = c as int;
    ||| n == 0x09
    ||| n == 0x0A
    ||| n == 0x0B
    ||| n == 0x0C
    ||| n == 0x0D
    ||| n == 0x20
    ||| n == 0x85
    ||| n == 0xA0
    ||| n == 0x1680
    ||| (0x2000 <= n && n <= 0x200A)
    ||| n == 0x2028
    ||| n == 0x2029
    ||| n == 0x202F
    ||| n == 0x205F
    ||| n == 0x3000
}

/// Decides white space by the Unicode White_Space list.
pub fn is_ws_char(c: char) -> (r: bool)
    ensures
        r == ws_char(c),
{
    let n = c as u32;
    n == 0x09 || n == 0x0A || n == 0x0B || n == 0x0C || n == 0x0D || n == 0x20 || n == 0x85
        || n == 0xA0 || n == 0x1680 || (0x2000 <= n && n <= 0x200A) || n == 0x2028 || n == 0x2029
        || n == 0x202F || n == 0x205F || n == 0x3000
}

/// Number of newline characters among the first `n` characters of `text`.
pub open spec fn newline_count(text: Seq<char>, n: int) -> int
    decreases n,
{
    if n <= 0 {
        0
    } else {
        newline_count(text, n - 1) + if text[n - 1] == '\n' {
            1int
        } else {
            0int
        }
    }
}

} // verus!
