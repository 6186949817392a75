//! The name translator: field identifiers are spelled with underscores
//! inside a record and with hyphens in style text.
//!
//! [`to_internal_name`] and [`to_external_name`] map one spelling to the
//! other; [`normalize_name`] additionally strips whitespace, as the
//! declaration router requires.  On names free of the other separator the
//! two maps invert each other, as the round-trip lemmas state.

use vstd::prelude::*;
use vstd::string::StrSliceExecFns;
use crate::text::{is_space, is_space_char, push_char};

verus! {

/// One character of an external name turned internal: `-` becomes `_`.
pub open spec fn internal_char(c: char) -> char {
    if c == '-' {
        '_'
    } else {
        c
    }
}

/// One character of an internal name turned external: `_` becomes `-`.
pub open spec fn external_char(c: char) -> char {
    if c == '_' {
        '-'
    } else {
        c
    }
}

/// The externally-hyphenated spelling turned into the internal identifier
/// spelling: every hyphen becomes an underscore.
pub open spec fn to_internal_spec(s: Seq<char>) -> Seq<char> {
    Seq::new(s.len(), |i: int| internal_char(s[i]))
}

/// The internal identifier spelling turned into the externally-hyphenated
/// spelling: every underscore becomes a hyphen.
pub open spec fn to_external_spec(s: Seq<char>) -> Seq<char> {
    Seq::new(s.len(), |i: int| external_char(s[i]))
}

/// A raw declaration name normalized to an internal identifier: whitespace
/// is stripped and every hyphen becomes an underscore.
pub open spec fn normalize_name_spec(s: Seq<char>) -> Seq<char>
    decreases s.len(),
{
    if s.len() == 0 {
        Seq::empty()
    } else {
        let rest = normalize_name_spec(s.skip(1));
        if is_space_char(s[0]) {
            rest
        } else {
            seq![internal_char(s[0])] + rest
        }
    }
}

/// Hyphen-to-underscore translation loses nothing on a name that holds no
/// hyphen of its own: turning it external and back gives the name again.
pub proof fn lemma_name_roundtrip_internal(s: Seq<char>)
    requires
        forall|i: int| 0 <= i < s.len() ==> s[i] != '-',
    ensures
        to_internal_spec(to_external_spec(s)) == s,
{
    assert(to_internal_spec(to_external_spec(s)) =~= s);
}

/// Underscore-to-hyphen translation loses nothing on a name that holds no
/// underscore of its own: turning it internal and back gives the name again.
pub proof fn lemma_name_roundtrip_external(s: Seq<char>)
    requires
        forall|i: int| 0 <= i < s.len() ==> s[i] != '_',
    ensures
        to_external_spec(to_internal_spec(s)) == s,
{
    assert(to_external_spec(to_internal_spec(s)) =~= s);
}

/// Translates an externally-hyphenated name to its internal spelling.
pub fn to_internal_name(s: &str) -> (r: String)
    ensures
        r@ == to_internal_spec(s@),
{
    let n = s.unicode_len();
    let mut out = String::new();
    let mut i: usize = 0;
    proof {
        assert(out@ =~= to_internal_spec(s@).take(0));
    }
    while i < n
        invariant
            0 <= i <= n,
            n == s@.len(),
            out@ == to_internal_spec(s@).take(i as int),
        decreases n - i,
    {
        let c = s.get_char(i);
        if c == '-' {
            push_char(&mut out, '_');
        } else {
            push_char(&mut out, c);
        }
        proof {
            assert(out@ =~= to_internal_spec(s@).take(i as int + 1));
        }
        i = i + 1;
    }
    proof {
        assert(to_internal_spec(s@).take(n as int) =~= to_internal_spec(s@));
    }
    out
}

/// Translates an internal identifier to its externally-hyphenated spelling.
pub fn to_external_name(s: &str) -> (r: String)
    ensures
        r@ == to_external_spec(s@),
{
    let n = s.unicode_len();
    let mut out = String::new();
    let mut i: usize = 0;
    proof {
        assert(out@ =~= to_external_spec(s@).take(0));
    }
    while i < n
        invariant
            0 <= i <= n,
            n == s@.len(),
            out@ == to_external_spec(s@).take(i as int),
        decreases n - i,
    {
        let c = s.get_char(i);
        if c == '_' {
            push_char(&mut out, '-');
        } else {
            push_char(&mut out, c);
        }
        proof {
            assert(out@ =~= to_external_spec(s@).take(i as int + 1));
        }
        i = i + 1;
    }
    proof {
        assert(to_external_spec(s@).take(n as int) =~= to_external_spec(s@));
    }
    out
}

/// Normalizes a raw declaration name: strips whitespace, hyphens become
/// underscores.
pub fn normalize_name(s: &str) -> (r: String)
    ensures
        r@ == normalize_name_spec(s@),
{
    let n = s.unicode_len();
    let mut out = String::new();
    let mut i: usize = 0;
    proof {
        assert(s@.skip(0) =~= s@);
        assert(out@ + normalize_name_spec(s@) =~= normalize_name_spec(s@));
    }
    while i < n
        invariant
            0 <= i <= n,
            n == s@.len(),
            out@ + normalize_name_spec(s@.skip(i as int)) == normalize_name_spec(s@),
        decreases n - i,
    {
        let c = s.get_char(i);
        let ghost rest = normalize_name_spec(s@.skip(i as int));
        let ghost rest2 = normalize_name_spec(s@.skip(i as int + 1));
        proof {
            assert(s@.skip(i as int)[0] == s@[i as int]);
            assert(s@.skip(i as int).skip(1) =~= s@.skip(i as int + 1));
        }
        let ghost old_out = out@;
        if is_space(c) {
            proof {
                assert(rest == rest2);
            }
        } else if c == '-' {
            push_char(&mut out, '_');
            proof {
                assert(rest == seq![internal_char(s@[i as int])] + rest2);
                assert(out@ + rest2 =~= old_out + rest);
            }
        } else {
            push_char(&mut out, c);
            proof {
                assert(rest == seq![internal_char(s@[i as int])] + rest2);
                assert(out@ + rest2 =~= old_out + rest);
            }
        }
        i = i + 1;
    }
    proof {
        assert(normalize_name_spec(s@.skip(i as int)).len() == 0);
        assert(out@ + normalize_name_spec(s@.skip(i as int)) =~= out@);
    }
    out
}

} // verus!
