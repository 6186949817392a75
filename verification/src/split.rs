//! Depth-aware splitting of text.
//!
//! [`split_top_level`] splits on a separator character only where the
//! parenthesis nesting depth is zero, honouring at most a given number of
//! breaks; [`split_plain`] splits on every occurrence; [`find_close`] locates
//! the parenthesis that closes an already-open group.

use vstd::prelude::*;
use vstd::string::StrSliceExecFns;
use crate::text::{opt_shift, push_char};

verus! {

/// The parenthesis depth after reading one character at depth `depth`.
pub open spec fn paren_delta(c: char, depth: int) -> int {
    if c == '(' {
        depth + 1
    } else if c == ')' {
        depth - 1
    } else {
        depth
    }
}

/// The segments of `s` split on `sep` where the parenthesis depth is zero,
/// honouring at most `breaks_left` breaks.  Scanning starts at depth `depth`.
pub open spec fn split_rec(s: Seq<char>, sep: char, breaks_left: nat, depth: int) -> Seq<
    Seq<char>,
>
    decreases s.len(),
{
    if s.len() == 0 {
        seq![Seq::<char>::empty()]
    } else if s[0] == sep && depth == 0 && breaks_left > 0 {
        seq![Seq::<char>::empty()] + split_rec(s.skip(1), sep, (breaks_left - 1) as nat, depth)
    } else {
        let rest = split_rec(s.skip(1), sep, breaks_left, paren_delta(s[0], depth));
        seq![seq![s[0]] + rest[0]] + rest.skip(1)
    }
}

/// A split always yields at least one segment, and no segment is longer than
/// the text it was cut from.
pub proof fn lemma_split_rec_len(s: Seq<char>, sep: char, breaks_left: nat, depth: int)
    ensures
        split_rec(s, sep, breaks_left, depth).len() >= 1,
        forall|i: int|
            0 <= i < split_rec(s, sep, breaks_left, depth).len() ==> #[trigger] split_rec(
                s,
                sep,
                breaks_left,
                depth,
            )[i].len() <= s.len(),
    decreases s.len(),
{
    if s.len() == 0 {
    } else if s[0] == sep && depth == 0 && breaks_left > 0 {
        lemma_split_rec_len(s.skip(1), sep, (breaks_left - 1) as nat, depth);
    } else {
        lemma_split_rec_len(s.skip(1), sep, breaks_left, paren_delta(s[0], depth));
    }
}

/// A split honours its cap: at most `breaks_left + 1` segments come out.
pub proof fn lemma_split_rec_count(s: Seq<char>, sep: char, breaks_left: nat, depth: int)
    ensures
        split_rec(s, sep, breaks_left, depth).len() <= breaks_left + 1,
    decreases s.len(),
{
    if s.len() == 0 {
    } else if s[0] == sep && depth == 0 && breaks_left > 0 {
        lemma_split_rec_count(s.skip(1), sep, (breaks_left - 1) as nat, depth);
    } else {
        lemma_split_rec_count(s.skip(1), sep, breaks_left, paren_delta(s[0], depth));
    }
}

/// Splits `s` on `sep` at parenthesis depth zero, honouring at most
/// `max_breaks` breaks; the remaining text is kept verbatim in the final
/// segment.  Never breaks inside nested parentheses, and tolerates unbalanced
/// input: the running depth may go negative, further separators then being
/// treated as nested.
pub fn split_top_level(s: &str, sep: char, max_breaks: usize) -> (r: Vec<String>)
    ensures
        r.deep_view() == split_rec(s@, sep, max_breaks as nat, 0),
        1 <= r@.len() <= max_breaks + 1,
{
    let n = s.unicode_len();
    let mut out: Vec<String> = Vec::new();
    let mut cur: String = String::new();
    let mut depth: i128 = 0;
    let mut breaks_left: usize = max_breaks;
    let mut i: usize = 0;
    let ghost target = split_rec(s@, sep, max_breaks as nat, 0);
    proof {
        assert(s@.skip(0) =~= s@);
        lemma_split_rec_len(s@, sep, max_breaks as nat, 0);
        assert(target =~= seq![target[0]] + target.skip(1));
        assert(cur@ + target[0] =~= target[0]);
        assert(out.deep_view() =~= Seq::<Seq<char>>::empty());
        assert(out.deep_view() + seq![cur@ + target[0]] + target.skip(1) =~= target);
    }
    while i < n
        invariant
            0 <= i <= n,
            n == s@.len(),
            -(i as int) <= depth as int,
            depth as int <= i as int,
            breaks_left <= max_breaks,
            target == split_rec(s@, sep, max_breaks as nat, 0),
            ({
                let rest = split_rec(s@.skip(i as int), sep, breaks_left as nat, depth as int);
                out.deep_view() + seq![cur@ + rest[0]] + rest.skip(1) == target
            }),
        decreases n - i,
    {
        let c = s.get_char(i);
        let ghost rest = split_rec(s@.skip(i as int), sep, breaks_left as nat, depth as int);
        proof {
            assert(s@.skip(i as int)[0] == s@[i as int]);
            assert(s@.skip(i as int).skip(1) =~= s@.skip(i as int + 1));
        }
        if c == sep && depth == 0 && breaks_left > 0 {
            let ghost rest2 = split_rec(
                s@.skip(i as int + 1),
                sep,
                (breaks_left - 1) as nat,
                depth as int,
            );
            proof {
                lemma_split_rec_len(s@.skip(i as int + 1), sep, (breaks_left - 1) as nat, depth as int);
                assert(rest == seq![Seq::<char>::empty()] + rest2);
                assert(rest[0] =~= Seq::<char>::empty());
                assert(rest.skip(1) =~= rest2);
                assert(cur@ + rest[0] =~= cur@);
            }
            let ghost old_out_dv = out.deep_view();
            let ghost old_cur = cur@;
            out.push(cur);
            cur = String::new();
            breaks_left = breaks_left - 1;
            proof {
                assert(out.deep_view() =~= old_out_dv.push(old_cur));
                assert(rest2 =~= seq![rest2[0]] + rest2.skip(1));
                assert(cur@ + rest2[0] =~= rest2[0]);
                assert(old_out_dv.push(old_cur) + seq![cur@ + rest2[0]] + rest2.skip(1) =~= old_out_dv
                    + seq![old_cur + rest[0]] + rest.skip(1));
            }
        } else {
            let ghost d2 = paren_delta(s@[i as int], depth as int);
            let ghost rest2 = split_rec(s@.skip(i as int + 1), sep, breaks_left as nat, d2);
            proof {
                lemma_split_rec_len(s@.skip(i as int + 1), sep, breaks_left as nat, d2);
                assert(rest == seq![seq![s@[i as int]] + rest2[0]] + rest2.skip(1));
                assert(rest[0] =~= seq![s@[i as int]] + rest2[0]);
                assert(rest.skip(1) =~= rest2.skip(1));
            }
            if c == '(' {
                depth = depth + 1;
            } else if c == ')' {
                depth = depth - 1;
            }
            let ghost old_cur = cur@;
            push_char(&mut cur, c);
            proof {
                assert(cur@ =~= old_cur + seq![s@[i as int]]);
                assert(cur@ + rest2[0] =~= old_cur + rest[0]);
            }
        }
        i = i + 1;
    }
    proof {
        let rest = split_rec(s@.skip(i as int), sep, breaks_left as nat, depth as int);
        assert(s@.skip(i as int).len() == 0);
        assert(rest =~= seq![Seq::<char>::empty()]);
        assert(cur@ + rest[0] =~= cur@);
        assert(rest.skip(1) =~= Seq::<Seq<char>>::empty());
        assert(out.deep_view() + seq![cur@] =~= target);
    }
    let ghost old_out_dv = out.deep_view();
    let ghost old_cur = cur@;
    out.push(cur);
    proof {
        assert(out.deep_view() =~= old_out_dv.push(old_cur));
        assert(old_out_dv.push(old_cur) =~= old_out_dv + seq![old_cur]);
        lemma_split_rec_len(s@, sep, max_breaks as nat, 0);
        lemma_split_rec_count(s@, sep, max_breaks as nat, 0);
        assert(out.deep_view().len() == out@.len());
    }
    out
}

/// The segments of `s` split on every occurrence of `sep`, nesting ignored.
pub open spec fn split_plain_spec(s: Seq<char>, sep: char) -> Seq<Seq<char>>
    decreases s.len(),
{
    if s.len() == 0 {
        seq![Seq::<char>::empty()]
    } else if s[0] == sep {
        seq![Seq::<char>::empty()] + split_plain_spec(s.skip(1), sep)
    } else {
        let rest = split_plain_spec(s.skip(1), sep);
        seq![seq![s[0]] + rest[0]] + rest.skip(1)
    }
}

/// A plain split always yields at least one segment.
pub proof fn lemma_split_plain_len(s: Seq<char>, sep: char)
    ensures
        split_plain_spec(s, sep).len() >= 1,
    decreases s.len(),
{
    if s.len() > 0 {
        lemma_split_plain_len(s.skip(1), sep);
    }
}

/// Splits `s` on every occurrence of `sep`, nesting ignored.
pub fn split_plain(s: &str, sep: char) -> (r: Vec<String>)
    ensures
        r.deep_view() == split_plain_spec(s@, sep),
{
    let n = s.unicode_len();
    let mut out: Vec<String> = Vec::new();
    let mut cur: String = String::new();
    let mut i: usize = 0;
    let ghost target = split_plain_spec(s@, sep);
    proof {
        assert(s@.skip(0) =~= s@);
        lemma_split_plain_len(s@, sep);
        assert(target =~= seq![target[0]] + target.skip(1));
        assert(cur@ + target[0] =~= target[0]);
        assert(out.deep_view() =~= Seq::<Seq<char>>::empty());
        assert(out.deep_view() + seq![cur@ + target[0]] + target.skip(1) =~= target);
    }
    while i < n
        invariant
            0 <= i <= n,
            n == s@.len(),
            target == split_plain_spec(s@, sep),
            ({
                let rest = split_plain_spec(s@.skip(i as int), sep);
                out.deep_view() + seq![cur@ + rest[0]] + rest.skip(1) == target
            }),
        decreases n - i,
    {
        let c = s.get_char(i);
        let ghost rest = split_plain_spec(s@.skip(i as int), sep);
        let ghost rest2 = split_plain_spec(s@.skip(i as int + 1), sep);
        proof {
            assert(s@.skip(i as int)[0] == s@[i as int]);
            assert(s@.skip(i as int).skip(1) =~= s@.skip(i as int + 1));
            lemma_split_plain_len(s@.skip(i as int + 1), sep);
        }
        if c == sep {
            proof {
                assert(rest == seq![Seq::<char>::empty()] + rest2);
                assert(rest[0] =~= Seq::<char>::empty());
                assert(rest.skip(1) =~= rest2);
                assert(cur@ + rest[0] =~= cur@);
            }
            let ghost old_out_dv = out.deep_view();
            let ghost old_cur = cur@;
            out.push(cur);
            cur = String::new();
            proof {
                assert(out.deep_view() =~= old_out_dv.push(old_cur));
                assert(rest2 =~= seq![rest2[0]] + rest2.skip(1));
                assert(cur@ + rest2[0] =~= rest2[0]);
                assert(old_out_dv.push(old_cur) + seq![cur@ + rest2[0]] + rest2.skip(1) =~= old_out_dv
                    + seq![old_cur + rest[0]] + rest.skip(1));
            }
        } else {
            proof {
                assert(rest == seq![seq![s@[i as int]] + rest2[0]] + rest2.skip(1));
                assert(rest[0] =~= seq![s@[i as int]] + rest2[0]);
                assert(rest.skip(1) =~= rest2.skip(1));
            }
            let ghost old_cur = cur@;
            push_char(&mut cur, c);
            proof {
                assert(cur@ =~= old_cur + seq![s@[i as int]]);
                assert(cur@ + rest2[0] =~= old_cur + rest[0]);
            }
        }
        i = i + 1;
    }
    proof {
        let rest = split_plain_spec(s@.skip(i as int), sep);
        assert(s@.skip(i as int).len() == 0);
        assert(rest =~= seq![Seq::<char>::empty()]);
        assert(cur@ + rest[0] =~= cur@);
        assert(rest.skip(1) =~= Seq::<Seq<char>>::empty());
        assert(out.deep_view() + seq![cur@] =~= target);
    }
    let ghost old_out_dv = out.deep_view();
    let ghost old_cur = cur@;
    out.push(cur);
    proof {
        assert(out.deep_view() =~= old_out_dv.push(old_cur));
        assert(old_out_dv.push(old_cur) =~= old_out_dv + seq![old_cur]);
    }
    out
}

/// The parenthesis depth after scanning all of `s`, starting from `depth`.
pub open spec fn net_depth(s: Seq<char>, depth: int) -> int
    decreases s.len(),
{
    if s.len() == 0 {
        depth
    } else {
        net_depth(s.skip(1), paren_delta(s[0], depth))
    }
}

/// Whether the depth stays nonnegative after every character of `s`,
/// scanning from `depth`.
pub open spec fn depth_nonneg(s: Seq<char>, depth: int) -> bool
    decreases s.len(),
{
    s.len() == 0 || (paren_delta(s[0], depth) >= 0 && depth_nonneg(
        s.skip(1),
        paren_delta(s[0], depth),
    ))
}

/// Whether no occurrence of `sep` sits at depth zero while scanning `s`
/// from `depth`.
pub open spec fn no_top_sep(s: Seq<char>, sep: char, depth: int) -> bool
    decreases s.len(),
{
    s.len() == 0 || (!(s[0] == sep && depth == 0) && no_top_sep(
        s.skip(1),
        sep,
        paren_delta(s[0], depth),
    ))
}

/// Scanning shifts with its starting depth.
pub proof fn lemma_net_depth_shift(s: Seq<char>, d: int, k: int)
    ensures
        net_depth(s, d + k) == net_depth(s, d) + k,
    decreases s.len(),
{
    if s.len() > 0 {
        assert(paren_delta(s[0], d + k) == paren_delta(s[0], d) + k);
        lemma_net_depth_shift(s.skip(1), paren_delta(s[0], d), k);
    }
}

/// Scanning a concatenation scans the parts in turn.
pub proof fn lemma_net_depth_concat(u: Seq<char>, v: Seq<char>, d: int)
    ensures
        net_depth(u + v, d) == net_depth(v, net_depth(u, d)),
    decreases u.len(),
{
    if u.len() == 0 {
        assert(u + v =~= v);
    } else {
        assert((u + v).skip(1) =~= u.skip(1) + v);
        lemma_net_depth_concat(u.skip(1), v, paren_delta(u[0], d));
    }
}

/// Nonnegative depth over a concatenation, part by part.
pub proof fn lemma_depth_nonneg_concat(u: Seq<char>, v: Seq<char>, d: int)
    requires
        depth_nonneg(u, d),
        depth_nonneg(v, net_depth(u, d)),
    ensures
        depth_nonneg(u + v, d),
    decreases u.len(),
{
    if u.len() == 0 {
        assert(u + v =~= v);
    } else {
        assert((u + v).skip(1) =~= u.skip(1) + v);
        lemma_depth_nonneg_concat(u.skip(1), v, paren_delta(u[0], d));
    }
}

/// Nonnegative depth is kept when the start rises.
pub proof fn lemma_depth_nonneg_shift(s: Seq<char>, d: int, k: int)
    requires
        depth_nonneg(s, d),
        k >= 0,
    ensures
        depth_nonneg(s, d + k),
    decreases s.len(),
{
    if s.len() > 0 {
        assert(paren_delta(s[0], d + k) == paren_delta(s[0], d) + k);
        lemma_depth_nonneg_shift(s.skip(1), paren_delta(s[0], d), k);
    }
}

/// No top-level separator over a concatenation, part by part.
pub proof fn lemma_no_top_sep_concat(u: Seq<char>, v: Seq<char>, sep: char, d: int)
    requires
        no_top_sep(u, sep, d),
        no_top_sep(v, sep, net_depth(u, d)),
    ensures
        no_top_sep(u + v, sep, d),
    decreases u.len(),
{
    if u.len() == 0 {
        assert(u + v =~= v);
    } else {
        assert((u + v).skip(1) =~= u.skip(1) + v);
        lemma_no_top_sep_concat(u.skip(1), v, sep, paren_delta(u[0], d));
    }
}

/// Scanned strictly above depth zero, text can hold no top-level separator.
pub proof fn lemma_no_top_sep_positive(s: Seq<char>, sep: char, d: int, k: int)
    requires
        depth_nonneg(s, d),
        d >= 0,
        k >= 1,
    ensures
        no_top_sep(s, sep, d + k),
    decreases s.len(),
{
    if s.len() > 0 {
        assert(paren_delta(s[0], d + k) == paren_delta(s[0], d) + k);
        lemma_no_top_sep_positive(s.skip(1), sep, paren_delta(s[0], d), k);
    }
}

/// Without a break the whole text is one segment: a cap of zero.
pub proof fn lemma_split_b0(s: Seq<char>, sep: char, d: int)
    ensures
        split_rec(s, sep, 0, d) == seq![s],
    decreases s.len(),
{
    if s.len() > 0 {
        lemma_split_b0(s.skip(1), sep, paren_delta(s[0], d));
        assert(seq![s[0]] + s.skip(1) =~= s);
        assert(split_rec(s, sep, 0, d) =~~= seq![s]);
    } else {
        assert(split_rec(s, sep, 0, d) =~~= seq![s]);
    }
}

/// Without a top-level separator the whole text is one segment.
pub proof fn lemma_split_no_sep(s: Seq<char>, sep: char, b: nat, d: int)
    requires
        no_top_sep(s, sep, d),
    ensures
        split_rec(s, sep, b, d) == seq![s],
    decreases s.len(),
{
    if s.len() > 0 {
        lemma_split_no_sep(s.skip(1), sep, b, paren_delta(s[0], d));
        assert(seq![s[0]] + s.skip(1) =~= s);
        assert(split_rec(s, sep, b, d) =~~= seq![s]);
    } else {
        assert(split_rec(s, sep, b, d) =~~= seq![s]);
    }
}

/// A prefix free of top-level separators lands whole in the first segment.
pub proof fn lemma_split_opaque_prepend(u: Seq<char>, v: Seq<char>, sep: char, b: nat, d: int)
    requires
        no_top_sep(u, sep, d),
    ensures
        ({
            let r = split_rec(v, sep, b, net_depth(u, d));
            split_rec(u + v, sep, b, d) == seq![u + r[0]] + r.skip(1)
        }),
    decreases u.len(),
{
    let r = split_rec(v, sep, b, net_depth(u, d));
    lemma_split_rec_len(v, sep, b, net_depth(u, d));
    if u.len() == 0 {
        assert(u + v =~= v);
        assert(u + r[0] =~= r[0]);
        assert(split_rec(u + v, sep, b, d) =~= seq![u + r[0]] + r.skip(1));
    } else {
        assert((u + v).skip(1) =~= u.skip(1) + v);
        lemma_split_opaque_prepend(u.skip(1), v, sep, b, paren_delta(u[0], d));
        let r2 = split_rec(u.skip(1) + v, sep, b, paren_delta(u[0], d));
        assert((u + v)[0] == u[0]);
        assert(split_rec(u + v, sep, b, d) == seq![seq![u[0]] + r2[0]] + r2.skip(1));
        assert(r2 == seq![u.skip(1) + r[0]] + r.skip(1));
        assert(r2[0] == u.skip(1) + r[0]);
        assert(seq![u[0]] + r2[0] =~= u + r[0]);
        assert(r2.skip(1) =~= r.skip(1));
        assert(split_rec(u + v, sep, b, d) =~= seq![u + r[0]] + r.skip(1));
    }
}

/// A separator at depth zero, with a break to spend, starts a new segment.
pub proof fn lemma_split_consume_sep(v: Seq<char>, sep: char, b: nat)
    requires
        b >= 1,
        sep != '(',
        sep != ')',
    ensures
        split_rec(seq![sep] + v, sep, b, 0) == seq![Seq::<char>::empty()] + split_rec(
            v,
            sep,
            (b - 1) as nat,
            0,
        ),
{
    assert((seq![sep] + v)[0] == sep);
    assert((seq![sep] + v).skip(1) =~= v);
}

/// The running counter never reaching zero anywhere in `s`, from `count`.
pub open spec fn stays_open(s: Seq<char>, count: int) -> bool
    decreases s.len(),
{
    s.len() == 0 || (paren_delta(s[0], count) != 0 && stays_open(
        s.skip(1),
        paren_delta(s[0], count),
    ))
}

/// A counter held strictly positive throughout never reaches zero.
pub proof fn lemma_stays_open(s: Seq<char>, d: int, k: int)
    requires
        depth_nonneg(s, d),
        k >= 1,
    ensures
        stays_open(s, d + k),
    decreases s.len(),
{
    if s.len() > 0 {
        assert(paren_delta(s[0], d + k) == paren_delta(s[0], d) + k);
        lemma_stays_open(s.skip(1), paren_delta(s[0], d), k);
    }
}

/// The closing scan passes whole over a prefix that keeps the counter open.
pub proof fn lemma_close_scan_concat(u: Seq<char>, v: Seq<char>, count: int)
    requires
        stays_open(u, count),
    ensures
        close_scan(u + v, count) == opt_shift(close_scan(v, net_depth(u, count)), u.len() as int),
    decreases u.len(),
{
    if u.len() == 0 {
        assert(u + v =~= v);
    } else {
        assert((u + v).skip(1) =~= u.skip(1) + v);
        lemma_close_scan_concat(u.skip(1), v, paren_delta(u[0], count));
    }
}

/// The position at which a running parenthesis counter, starting at `count`,
/// first reaches zero: the position of the parenthesis that closes the group
/// `count` levels deep at the start of `s`.
pub open spec fn close_scan(s: Seq<char>, count: int) -> Option<int>
    decreases s.len(),
{
    if s.len() == 0 {
        None
    } else if paren_delta(s[0], count) == 0 {
        Some(0)
    } else {
        opt_shift(close_scan(s.skip(1), paren_delta(s[0], count)), 1)
    }
}

/// What [`close_scan`] finds lies within the text.
pub proof fn lemma_close_scan_bound(s: Seq<char>, count: int)
    ensures
        match close_scan(s, count) {
            None => true,
            Some(j) => 0 <= j < s.len(),
        },
    decreases s.len(),
{
    if s.len() > 0 && paren_delta(s[0], count) != 0 {
        lemma_close_scan_bound(s.skip(1), paren_delta(s[0], count));
    }
}

/// Finds the parenthesis that closes a group already one level open before
/// `s` begins, as [`close_scan`] from count 1 describes.
pub fn find_close(s: &str) -> (r: Option<usize>)
    ensures
        match r {
            None => close_scan(s@, 1) is None,
            Some(j) => close_scan(s@, 1) == Some(j as int),
        },
{
    let n = s.unicode_len();
    let mut count: i128 = 1;
    let mut i: usize = 0;
    proof {
        assert(s@.skip(0) =~= s@);
    }
    while i < n
        invariant
            0 <= i <= n,
            n == s@.len(),
            1 - (i as int) <= count as int,
            count as int <= 1 + i as int,
            count != 0,
            close_scan(s@, 1) == opt_shift(close_scan(s@.skip(i as int), count as int), i as int),
        decreases n - i,
    {
        let c = s.get_char(i);
        proof {
            assert(s@.skip(i as int)[0] == s@[i as int]);
            assert(s@.skip(i as int).skip(1) =~= s@.skip(i as int + 1));
        }
        if c == '(' {
            count = count + 1;
        } else if c == ')' {
            count = count - 1;
        }
        if count == 0 {
            return Some(i);
        }
        i = i + 1;
    }
    proof {
        assert(s@.skip(i as int).len() == 0);
    }
    None
}

} // verus!
