//! Strings built and shown.

use crate::byte_map::same_bytes;
use crate::utf8;
use vstd::prelude::*;

verus! {

/// How `std` shows a string in debug form: in quotes, with escapes.
pub uninterp spec fn debug_form(s: Seq<char>) -> Seq<char>;

/// `format!("{:?}", s)`: the debug form, which the string alone decides. What
/// is escaped in it is left unsaid.
#[verifier::external_body]
pub(crate) fn quoted(s: &str) -> (res: String)
    ensures
        res@ == debug_form(s@),
{
    format!("{:?}", s)
}

/// The decimal digits of a number.
pub open spec fn decimal(n: nat) -> Seq<char>
    decreases n,
{
    let last = seq![(48 + n % 10) as u8 as char];
    if n < 10 {
        last
    } else {
        decimal(n / 10) + last
    }
}

/// Writes a number in decimal.
pub fn show_decimal(n: u64) -> (res: String)
    ensures
        res@ == decimal(n as nat),
    decreases n,
{
    let digit: u8 = 48 + (n % 10) as u8;
    let one = digit_str(digit);
    if n < 10 {
        one.to_owned()
    } else {
        let head = show_decimal(n / 10);
        join(head.as_str(), one)
    }
}

/// A digit as a string.
fn digit_str(digit: u8) -> (res: &'static str)
    requires
        48 <= digit <= 57,
    ensures
        res@ == seq![digit as char],
{
    proof {
        reveal_strlit("0");
        reveal_strlit("1");
        reveal_strlit("2");
        reveal_strlit("3");
        reveal_strlit("4");
        reveal_strlit("5");
        reveal_strlit("6");
        reveal_strlit("7");
        reveal_strlit("8");
        reveal_strlit("9");
    }
    let res = match digit {
        48 => "0",
        49 => "1",
        50 => "2",
        51 => "3",
        52 => "4",
        53 => "5",
        54 => "6",
        55 => "7",
        56 => "8",
        _ => "9",
    };
    assert(res@ =~= seq![digit as char]);
    res
}

/// Joins two strings.
pub fn join(first: &str, second: &str) -> (res: String)
    ensures
        res@ == first@ + second@,
{
    let mut res = first.to_owned();
    res.append(second);
    res
}

/// Are two strings the same?
pub fn same(a: &str, b: &str) -> (res: bool)
    ensures
        res == (a@ == b@),
{
    let res = same_bytes(a.as_bytes(), b.as_bytes());
    proof {
        if res {
            utf8::lemma_encode_injective(a@, b@);
        }
    }
    res
}

/// The characters of a string.
pub fn chars_of(s: &str) -> (out: Vec<char>)
    ensures
        out@ == s@,
{
    let mut out: Vec<char> = Vec::new();
    for c in it: s.chars()
        invariant
            it.seq() == s@,
            out@ == s@.take(it.index() as int),
    {
        proof {
            assert(s@.take(it.index() + 1) =~= s@.take(it.index() as int).push(c));
        }
        out.push(c);
    }
    assert(s@.take(s@.len() as int) =~= s@);
    out
}

/// Where the first space is, from index `i` on.
pub open spec fn space_from(s: Seq<char>, i: int) -> Option<int>
    decreases s.len() - i,
{
    if i < 0 || i >= s.len() {
        None
    } else if s[i] == ' ' {
        Some(i)
    } else {
        space_from(s, i + 1)
    }
}

/// The parts of a string before and after its first space.
pub fn split_space(s: &str) -> (res: Option<(String, String)>)
    ensures
        match (res, space_from(s@, 0)) {
            (Some(parts), Some(i)) => {
                &&& 0 <= i < s@.len()
                &&& parts.0@ == s@.take(i)
                &&& parts.1@ == s@.skip(i + 1)
            },
            (None, None) => true,
            _ => false,
        },
{
    let chars = chars_of(s);
    let mut i: usize = 0;
    while i < chars.len()
        invariant
            chars@ == s@,
            i <= s@.len(),
            space_from(s@, 0) == space_from(s@, i as int),
        decreases s@.len() - i,
    {
        if chars[i] == ' ' {
            let before = s.substring_char(0, i);
            let after = s.substring_char(i + 1, chars.len());
            assert(before@ =~= s@.take(i as int));
            assert(after@ =~= s@.skip(i + 1));
            return Some((before.to_owned(), after.to_owned()));
        }
        i += 1;
    }
    None
}

/// The debug forms of the first `n` strings, with commas between them.
pub open spec fn debug_items(items: Seq<Seq<char>>, n: nat) -> Seq<char>
    decreases n,
{
    if n == 0 || n > items.len() {
        Seq::empty()
    } else if n == 1 {
        debug_form(items[0])
    } else {
        debug_items(items, (n - 1) as nat) + ", "@ + debug_form(items[n - 1])
    }
}

/// How `std` shows a list of strings in debug form.
pub open spec fn debug_list(items: Seq<Seq<char>>) -> Seq<char> {
    "["@ + debug_items(items, items.len()) + "]"@
}

/// The views of strings.
pub open spec fn texts(strings: Seq<String>) -> Seq<Seq<char>> {
    Seq::new(strings.len(), |i: int| strings[i]@)
}

/// Shows a list of strings in debug form.
pub fn show_list(items: &Vec<String>) -> (res: String)
    ensures
        res@ == debug_list(texts(items@)),
{
    let mut shown = String::new();
    let mut i: usize = 0;
    while i < items.len()
        invariant
            i <= items@.len(),
            shown@ == debug_items(texts(items@), i as nat),
        decreases items@.len() - i,
    {
        if i > 0 {
            shown.append(", ");
        }
        let one = quoted(items[i].as_str());
        shown.append(one.as_str());
        assert(texts(items@)[i as int] == items@[i as int]@);
        assert(Seq::<char>::empty() + one@ =~= one@);
        i += 1;
    }
    let opened = join("[", shown.as_str());
    join(opened.as_str(), "]")
}

} // verus!
