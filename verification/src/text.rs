//! Small text building blocks: decimal numbers, text comparison and path joining.

use vstd::prelude::*;

verus! {

/// The ten decimal digits, in order.
pub open spec fn decimal_alphabet() -> Seq<char> {
    seq!['0', '1', '2', '3', '4', '5', '6', '7', '8', '9']
}

/// The decimal text of a natural number, without leading zeros.
pub open spec fn decimal_text(n: nat) -> Seq<char>
    decreases n,
{
    if n < 10 {
        seq![decimal_alphabet()[n as int]]
    } else {
        decimal_text(n / 10) + seq![decimal_alphabet()[(n % 10) as int]]
    }
}

/// Writes `n` in decimal.
pub fn decimal_string(n: usize) -> (text: String)
    ensures
        text@ == decimal_text(n as nat),
    decreases n,
{
    let digits: &str = "0123456789";
    proof {
        reveal_strlit("0123456789");
    }
    assert(digits@ == decimal_alphabet());
    if n < 10 {
        String::from_str(digits.substring_ascii(n, n + 1))
    } else {
        let mut text = decimal_string(n / 10);
        let d = n % 10;
        text.append(digits.substring_ascii(d, d + 1));
        text
    }
}

/// Whether two texts are equal, character by character.
pub fn str_eq(a: &str, b: &str) -> (eq: bool)
    ensures
        eq == (a@ == b@),
{
    let n = a.unicode_len();
    if n != b.unicode_len() {
        return false;
    }
    let mut i: usize = 0;
    while i < n
        invariant
            n == a@.len(),
            n == b@.len(),
            i <= n,
            forall|j: int| 0 <= j < i ==> a@[j] == b@[j],
        decreases n - i,
    {
        if a.get_char(i) != b.get_char(i) {
            return false;
        }
        i = i + 1;
    }
    assert(a@ =~= b@);
    true
}

/// `base` extended by the relative path component `name`, with one `/`
/// between them unless `base` is empty or already ends in `/` (the way a
/// Unix path is extended by a relative component).
pub open spec fn joined_path(base: Seq<char>, name: Seq<char>) -> Seq<char> {
    if base.len() == 0 || base.last() == '/' {
        base + name
    } else {
        base + seq!['/'] + name
    }
}

/// Extends the path `base` by the relative component `name`.
pub fn join_path(base: &str, name: &str) -> (path: String)
    ensures
        path@ == joined_path(base@, name@),
{
    let n = base.unicode_len();
    let mut path = String::from_str(base);
    if n > 0 && base.get_char(n - 1) != '/' {
        let sep: &str = "/";
        proof {
            reveal_strlit("/");
        }
        path.append(sep);
    }
    path.append(name);
    path
}

} // verus!
