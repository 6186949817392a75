//! Elementary text operations: whitespace trimming, locating a character,
//! and building strings character by character.
//!
//! Every operation is specified over the `Seq<char>` view of the text.

use vstd::prelude::*;
use vstd::string::StrSliceExecFns;

verus! {

/// Whitespace as the codec understands it: the ASCII whitespace characters.
pub open spec fn is_space_char(c: char) -> bool {
    c == ' ' || c == '\t' || c == '\n' || c == '\r' || c == '\u{b}' || c == '\u{c}'
}

/// Executable test for [`is_space_char`].
pub fn is_space(c: char) -> (r: bool)
    ensures
        r == is_space_char(c),
{
    c == ' ' || c == '\t' || c == '\n' || c == '\r' || c == '\u{b}' || c == '\u{c}'
}

/// The text with its leading whitespace removed.
pub open spec fn trim_start_spec(s: Seq<char>) -> Seq<char>
    decreases s.len(),
{
    if s.len() > 0 && is_space_char(s[0]) {
        trim_start_spec(s.skip(1))
    } else {
        s
    }
}

/// The text with its trailing whitespace removed.
pub open spec fn trim_end_spec(s: Seq<char>) -> Seq<char>
    decreases s.len(),
{
    if s.len() > 0 && is_space_char(s[s.len() - 1]) {
        trim_end_spec(s.take(s.len() - 1))
    } else {
        s
    }
}

/// The text with surrounding whitespace removed.
pub open spec fn trim_spec(s: Seq<char>) -> Seq<char> {
    trim_end_spec(trim_start_spec(s))
}

pub proof fn lemma_trim_start_len(s: Seq<char>)
    ensures
        trim_start_spec(s).len() <= s.len(),
    decreases s.len(),
{
    if s.len() > 0 && is_space_char(s[0]) {
        lemma_trim_start_len(s.skip(1));
    }
}

pub proof fn lemma_trim_end_len(s: Seq<char>)
    ensures
        trim_end_spec(s).len() <= s.len(),
    decreases s.len(),
{
    if s.len() > 0 && is_space_char(s[s.len() - 1]) {
        lemma_trim_end_len(s.take(s.len() - 1));
    }
}

pub proof fn lemma_trim_len(s: Seq<char>)
    ensures
        trim_spec(s).len() <= s.len(),
{
    lemma_trim_start_len(s);
    lemma_trim_end_len(trim_start_spec(s));
}

/// Text made of whitespace alone.
pub open spec fn all_space(s: Seq<char>) -> bool {
    forall|i: int| 0 <= i < s.len() ==> is_space_char(s[i])
}

/// Leading whitespace falls away, down to the first non-space character.
pub proof fn lemma_trim_start_pad(p: Seq<char>, s: Seq<char>)
    requires
        all_space(p),
        s.len() > 0 ==> !is_space_char(s[0]),
    ensures
        trim_start_spec(p + s) == s,
    decreases p.len(),
{
    if p.len() == 0 {
        assert(p + s =~= s);
    } else {
        assert((p + s)[0] == p[0]);
        assert((p + s).skip(1) =~= p.skip(1) + s);
        lemma_trim_start_pad(p.skip(1), s);
    }
}

/// A text whose surroundings are not whitespace trims, under any whitespace
/// padding, to itself.
pub proof fn lemma_trim_pad(p: Seq<char>, s: Seq<char>)
    requires
        all_space(p),
        s.len() > 0,
        !is_space_char(s[0]),
        !is_space_char(s[s.len() - 1]),
    ensures
        trim_spec(p + s) == s,
{
    lemma_trim_start_pad(p, s);
}

/// Whitespace-only text trims to nothing.
pub proof fn lemma_trim_all_space(s: Seq<char>)
    requires
        all_space(s),
    ensures
        trim_spec(s) == Seq::<char>::empty(),
    decreases s.len(),
{
    if s.len() == 0 {
        assert(trim_spec(s) =~= Seq::<char>::empty());
    } else {
        assert(trim_start_spec(s) == trim_start_spec(s.skip(1)));
        lemma_trim_all_space(s.skip(1));
    }
}

/// Trimming keeps the first non-space character in front.
proof fn lemma_trim_start_first(s: Seq<char>)
    requires
        exists|i: int| 0 <= i < s.len() && !is_space_char(s[i]),
    ensures
        trim_start_spec(s).len() > 0,
        !is_space_char(trim_start_spec(s)[0]),
    decreases s.len(),
{
    if is_space_char(s[0]) {
        let i = choose|i: int| 0 <= i < s.len() && !is_space_char(s[i]);
        assert(0 <= i - 1 < s.skip(1).len() && !is_space_char(s.skip(1)[i - 1]));
        lemma_trim_start_first(s.skip(1));
    }
}

/// Trimming from the end keeps a text whose first character is not space.
proof fn lemma_trim_end_first(s: Seq<char>)
    requires
        s.len() > 0,
        !is_space_char(s[0]),
    ensures
        trim_end_spec(s).len() > 0,
    decreases s.len(),
{
    if is_space_char(s[s.len() - 1]) {
        assert(s.take(s.len() - 1)[0] == s[0]);
        lemma_trim_end_first(s.take(s.len() - 1));
    }
}

/// A text holding any non-space character does not trim to nothing.
pub proof fn lemma_trim_nonempty(s: Seq<char>)
    requires
        exists|i: int| 0 <= i < s.len() && !is_space_char(s[i]),
    ensures
        trim_spec(s).len() > 0,
{
    lemma_trim_start_first(s);
    lemma_trim_end_first(trim_start_spec(s));
}

/// The position of the first occurrence of `c`, if any.
pub open spec fn find_char_spec(s: Seq<char>, c: char) -> Option<int>
    decreases s.len(),
{
    if s.len() == 0 {
        None
    } else if s[0] == c {
        Some(0)
    } else {
        match find_char_spec(s.skip(1), c) {
            None => None,
            Some(j) => Some(j + 1),
        }
    }
}

/// An option over positions, shifted right by `k`.
pub open spec fn opt_shift(o: Option<int>, k: int) -> Option<int> {
    match o {
        None => None,
        Some(j) => Some(j + k),
    }
}

/// What [`find_char_spec`] finds really is the first occurrence.
pub proof fn lemma_find_char(s: Seq<char>, c: char)
    ensures
        match find_char_spec(s, c) {
            None => forall|k: int| 0 <= k < s.len() ==> s[k] != c,
            Some(j) => 0 <= j < s.len() && s[j] == c && forall|k: int| 0 <= k < j ==> s[k] != c,
        },
    decreases s.len(),
{
    if s.len() > 0 && s[0] != c {
        lemma_find_char(s.skip(1), c);
        assert forall|k: int| 0 <= k < s.len() && k > 0 implies s.skip(1)[k - 1] == s[k] by {}
    }
}

/// Searching a concatenation passes whole over a prefix free of `c`.
pub proof fn lemma_find_char_concat(u: Seq<char>, v: Seq<char>, c: char)
    requires
        forall|i: int| 0 <= i < u.len() ==> u[i] != c,
    ensures
        find_char_spec(u + v, c) == opt_shift(find_char_spec(v, c), u.len() as int),
    decreases u.len(),
{
    if u.len() == 0 {
        assert(u + v =~= v);
    } else {
        assert((u + v)[0] == u[0]);
        assert((u + v).skip(1) =~= u.skip(1) + v);
        lemma_find_char_concat(u.skip(1), v, c);
    }
}

/// Executable search for the first occurrence of `c` in `s`.
pub fn find_char(s: &str, c: char) -> (r: Option<usize>)
    ensures
        match r {
            None => find_char_spec(s@, c) is None,
            Some(i) => find_char_spec(s@, c) == Some(i as int),
        },
{
    let n = s.unicode_len();
    let mut i: usize = 0;
    proof {
        assert(s@.skip(0) =~= s@);
        assert(opt_shift(find_char_spec(s@, c), 0) == find_char_spec(s@, c));
    }
    while i < n
        invariant
            0 <= i <= n,
            n == s@.len(),
            find_char_spec(s@, c) == opt_shift(find_char_spec(s@.skip(i as int), c), i as int),
            forall|k: int| 0 <= k < i ==> s@[k] != c,
        decreases n - i,
    {
        let ch = s.get_char(i);
        if ch == c {
            proof {
                assert(s@.skip(i as int)[0] == c);
            }
            return Some(i);
        }
        proof {
            assert(s@.skip(i as int).skip(1) =~= s@.skip(i as int + 1));
        }
        i = i + 1;
    }
    proof {
        assert(s@.skip(i as int).len() == 0);
    }
    None
}

/// Executable trim of surrounding whitespace.
pub fn trim_str<'a>(s: &'a str) -> (r: &'a str)
    ensures
        r@ == trim_spec(s@),
{
    let n = s.unicode_len();
    let mut start: usize = 0;
    proof {
        assert(s@.skip(0) =~= s@);
    }
    while start < n && is_space(s.get_char(start))
        invariant
            0 <= start <= n,
            n == s@.len(),
            trim_start_spec(s@) == trim_start_spec(s@.skip(start as int)),
        decreases n - start,
    {
        proof {
            assert(s@.skip(start as int).skip(1) =~= s@.skip(start as int + 1));
        }
        start = start + 1;
    }
    proof {
        if start < n {
            assert(trim_start_spec(s@.skip(start as int)) == s@.skip(start as int));
        } else {
            assert(s@.skip(start as int).len() == 0);
        }
        assert(trim_start_spec(s@) == s@.skip(start as int));
    }
    let mut end: usize = n;
    proof {
        assert(s@.skip(start as int).take(n - start as int) =~= s@.skip(start as int));
    }
    while end > start && is_space(s.get_char(end - 1))
        invariant
            start <= end <= n,
            n == s@.len(),
            trim_start_spec(s@) == s@.skip(start as int),
            trim_end_spec(s@.skip(start as int)) == trim_end_spec(
                s@.skip(start as int).take(end - start as int),
            ),
        decreases end,
    {
        proof {
            let t = s@.skip(start as int).take(end - start as int);
            assert(t.len() == end - start);
            assert(t[t.len() - 1] == s@[end - 1]);
            assert(t.take(t.len() - 1) =~= s@.skip(start as int).take(end - 1 - start as int));
        }
        end = end - 1;
    }
    proof {
        let t = s@.skip(start as int).take(end - start as int);
        if end > start {
            assert(t[t.len() - 1] == s@[end - 1]);
            assert(trim_end_spec(t) == t);
        } else {
            assert(t.len() == 0);
        }
        assert(trim_spec(s@) == t);
    }
    let r = s.substring_char(start, end);
    proof {
        assert(r@ =~= s@.skip(start as int).take(end - start as int));
    }
    r
}

/// Relies on `String::push`: appends exactly the one character at the end.
#[verifier::external_body]
pub fn push_char(s: &mut String, c: char)
    ensures
        final(s)@ == old(s)@.push(c),
{
    s.push(c);
}

} // verus!
