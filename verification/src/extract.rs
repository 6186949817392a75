//! Extraction of the numeric part of a text payload.
//!
//! Style values carry units and decorations around their numbers
//! (`"200px"`, `"-1.5em"`); [`try_extract_nums`] keeps only the characters
//! a number is written with, in order.

use vstd::prelude::*;
use vstd::string::StrSliceExecFns;
use crate::text::push_char;

verus! {

/// Whether `c` can be part of a written number: a decimal digit, a decimal
/// point, or a minus sign.
pub open spec fn is_num_char(c: char) -> bool {
    c == '0' || c == '1' || c == '2' || c == '3' || c == '4' || c == '5' || c == '6' || c == '7'
        || c == '8' || c == '9' || c == '.' || c == '-'
}

/// Executable test for [`is_num_char`].
pub fn is_num(c: char) -> (r: bool)
    ensures
        r == is_num_char(c),
{
    c == '0' || c == '1' || c == '2' || c == '3' || c == '4' || c == '5' || c == '6' || c == '7'
        || c == '8' || c == '9' || c == '.' || c == '-'
}

/// The characters of `s` that can be part of a written number, in order.
pub open spec fn extract_nums_spec(s: Seq<char>) -> Seq<char>
    decreases s.len(),
{
    if s.len() == 0 {
        Seq::empty()
    } else if is_num_char(s[0]) {
        seq![s[0]] + extract_nums_spec(s.skip(1))
    } else {
        extract_nums_spec(s.skip(1))
    }
}

/// Extracts the number-forming characters from whatever text is given.
/// Always succeeds; on text with no such character the extracted text is
/// empty.
pub fn try_extract_nums(s: &str) -> (r: Option<String>)
    ensures
        match r {
            Some(t) => t@ == extract_nums_spec(s@),
            None => false,
        },
{
    let n = s.unicode_len();
    let mut out = String::new();
    let mut i: usize = 0;
    proof {
        assert(s@.skip(0) =~= s@);
        assert(out@ + extract_nums_spec(s@) =~= extract_nums_spec(s@));
    }
    while i < n
        invariant
            0 <= i <= n,
            n == s@.len(),
            out@ + extract_nums_spec(s@.skip(i as int)) == extract_nums_spec(s@),
        decreases n - i,
    {
        let c = s.get_char(i);
        let ghost rest = extract_nums_spec(s@.skip(i as int));
        let ghost rest2 = extract_nums_spec(s@.skip(i as int + 1));
        proof {
            assert(s@.skip(i as int)[0] == s@[i as int]);
            assert(s@.skip(i as int).skip(1) =~= s@.skip(i as int + 1));
        }
        let ghost old_out = out@;
        if is_num(c) {
            push_char(&mut out, c);
            proof {
                assert(rest == seq![s@[i as int]] + rest2);
                assert(out@ + rest2 =~= old_out + rest);
            }
        }
        i = i + 1;
    }
    proof {
        assert(extract_nums_spec(s@.skip(i as int)).len() == 0);
        assert(out@ + extract_nums_spec(s@.skip(i as int)) =~= out@);
    }
    Some(out)
}

} // verus!
