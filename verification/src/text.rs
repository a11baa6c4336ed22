//! Text as a vector of characters: taking a string apart and finding a
//! character in a stretch of it.

use vstd::prelude::*;

verus! {

/// Where `c` first stands in `s`; the length of `s` where it does not.
pub open spec fn first_at(s: Seq<char>, c: char) -> int {
    match s.index_of_first(c) {
        Some(at) => at,
        None => s.len() as int,
    }
}

/// The characters of `s`, in order.
pub fn chars_of(s: &str) -> (chars: Vec<char>)
    ensures
        chars@ == s@,
{
    let mut chars: Vec<char> = Vec::new();
    for c in it: s.chars()
        invariant
            chars@ == it.seq().take(it.index() as int),
            it.seq() == s@,
    {
        chars.push(c);
    }
    chars
}

/// The text made of the characters `chars[from..to]`.
pub fn string_of(chars: &Vec<char>, from: usize, to: usize) -> (s: String)
    requires
        from <= to <= chars.len(),
    ensures
        s@ == chars@.subrange(from as int, to as int),
{
    let mut s = String::new();
    let mut i: usize = from;
    while i < to
        invariant
            from <= i <= to <= chars.len(),
            s@ == chars@.subrange(from as int, i as int),
        decreases to - i,
    {
        s.push(chars[i]);
        assert(s@ =~= chars@.subrange(from as int, i + 1));
        i = i + 1;
    }
    s
}

/// Finds the first `c` in `chars[from..to]`, and gives its index in
/// `chars`, or `to` where there is none.
pub fn find_char(chars: &Vec<char>, from: usize, to: usize, c: char) -> (at: usize)
    requires
        from <= to <= chars.len(),
    ensures
        from <= at <= to,
        at - from == first_at(chars@.subrange(from as int, to as int), c),
{
    let ghost s = chars@.subrange(from as int, to as int);
    let mut at: usize = from;
    while at < to && chars[at] != c
        invariant
            from <= at <= to <= chars.len(),
            forall|k: int| from <= k < at ==> chars@[k] != c,
        decreases to - at,
    {
        at = at + 1;
    }
    proof {
        s.index_of_first_ensures(c);
        assert forall|k: int| 0 <= k < at - from implies s[k] != c by {
            assert(s[k] == chars@[from + k]);
        }
        if at < to {
            assert(s[at - from] == c);
        }
    }
    at
}

} // verus!
