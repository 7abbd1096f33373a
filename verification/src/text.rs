//! Character-sequence utilities shared by the renderer and the importer:
//! substring matching, first-occurrence search, separator splitting, marker
//! removal, and decimal color-channel parsing.
//!
//! All indexing is by logical character (code point), never by encoded byte,
//! so multi-byte characters are never split mid-run or mid-match. Every
//! executable function is specified against a spec function over `Seq<char>`.

use vstd::prelude::*;
use vstd::string::*;

verus! {

/// `pat` occurs in `text` starting at character position `p`.
pub open spec fn occurs_at(text: Seq<char>, pat: Seq<char>, p: int) -> bool {
    &&& 0 <= p
    &&& p + pat.len() <= text.len()
    &&& text.subrange(p, p + pat.len()) == pat
}

/// The first position at or after `from` at which `pat` occurs in `text`.
pub open spec fn find_from(text: Seq<char>, pat: Seq<char>, from: int) -> Option<int>
    decreases text.len() - from,
{
    if from < 0 || from + pat.len() > text.len() {
        None
    } else if pat.len() == 0 || occurs_at(text, pat, from) {
        Some(from)
    } else {
        find_from(text, pat, from + 1)
    }
}

/// `find_from` returns exactly the least occurrence position at or after
/// `from`, and `None` exactly when there is none.
pub proof fn lemma_find_from(text: Seq<char>, pat: Seq<char>, from: int)
    requires
        0 <= from,
    ensures
        match find_from(text, pat, from) {
            Some(p) => {
                &&& from <= p
                &&& occurs_at(text, pat, p)
                &&& forall|q: int| from <= q < p ==> !occurs_at(text, pat, q)
            },
            None => forall|q: int| from <= q ==> !occurs_at(text, pat, q),
        },
    decreases text.len() - from,
{
    if from + pat.len() > text.len() {
        assert forall|q: int| from <= q implies !occurs_at(text, pat, q) by {
            assert(q + pat.len() > text.len());
        }
    } else if pat.len() == 0 {
        assert(text.subrange(from, from + pat.len()) =~= pat);
    } else if occurs_at(text, pat, from) {
    } else {
        lemma_find_from(text, pat, from + 1);
    }
}

/// Does `pat` occur in `text` at character position `p`?
pub fn match_at(text: &str, pat: &str, p: usize) -> (b: bool)
    ensures
        b == occurs_at(text@, pat@, p as int),
{
    let n = text.unicode_len();
    let m = pat.unicode_len();
    if p > n || m > n - p {
        return false;
    }
    let mut j: usize = 0;
    while j < m
        invariant
            p + m <= n,
            m == pat@.len(),
            n == text@.len(),
            j <= m,
            forall|k: int| 0 <= k < j ==> text@[p + k] == pat@[k],
        decreases m - j,
    {
        if text.get_char(p + j) != pat.get_char(j) {
            proof {
                if occurs_at(text@, pat@, p as int) {
                    assert(text@.subrange(p as int, p + m)[j as int] == text@[p + j]);
                }
            }
            return false;
        }
        j += 1;
    }
    proof {
        assert(text@.subrange(p as int, p + m) =~= pat@);
    }
    true
}

/// The first character position at or after `from` where `pat` occurs in
/// `text`, as `find_from` gives it.
pub fn find_at(text: &str, pat: &str, from: usize) -> (r: Option<usize>)
    ensures
        match r {
            Some(p) => find_from(text@, pat@, from as int) == Some(p as int),
            None => find_from(text@, pat@, from as int) is None,
        },
{
    let n = text.unicode_len();
    let m = pat.unicode_len();
    if m == 0 {
        if from <= n {
            proof {
                assert(text@.subrange(from as int, from as int) =~= pat@);
            }
            return Some(from);
        } else {
            return None;
        }
    }
    let mut p: usize = from;
    while p <= n && m <= n - p
        invariant
            n == text@.len(),
            m == pat@.len(),
            m >= 1,
            from <= p,
            forall|q: int| from <= q < p ==> !occurs_at(text@, pat@, q),
        decreases n - p,
    {
        if match_at(text, pat, p) {
            proof {
                lemma_find_from(text@, pat@, from as int);
                match find_from(text@, pat@, from as int) {
                    Some(w) => {
                        if w < p {
                            assert(!occurs_at(text@, pat@, w));
                        }
                        if w > p {
                            assert(!occurs_at(text@, pat@, p as int));
                        }
                    },
                    None => {
                        assert(!occurs_at(text@, pat@, p as int));
                    },
                }
            }
            return Some(p);
        }
        p += 1;
    }
    proof {
        lemma_find_from(text@, pat@, from as int);
        assert(p > n || m > n - p);
        if find_from(text@, pat@, from as int) is Some {
            let w = find_from(text@, pat@, from as int)->Some_0;
            assert(w + m <= n);
            assert(!occurs_at(text@, pat@, w));
        }
    }
    None
}

/// Are two strings equal, character for character?
pub fn str_eq(a: &str, b: &str) -> (r: bool)
    ensures
        r == (a@ == b@),
{
    let la = a.unicode_len();
    let lb = b.unicode_len();
    if la != lb {
        return false;
    }
    let m = match_at(a, b, 0);
    proof {
        assert(a@.subrange(0, la as int) =~= a@);
    }
    m
}

/// The pieces of `text` between consecutive occurrences of the non-empty
/// separator `sep`, scanning left to right; always at least one piece.
pub open spec fn split_on_spec(text: Seq<char>, sep: Seq<char>) -> Seq<Seq<char>>
    recommends
        sep.len() > 0,
    decreases text.len(),
    when sep.len() > 0
    via split_on_spec_dec
{
    match find_from(text, sep, 0) {
        None => seq![text],
        Some(p) => seq![text.subrange(0, p)] + split_on_spec(
            text.subrange(p + sep.len(), text.len() as int),
            sep,
        ),
    }
}

#[via_fn]
proof fn split_on_spec_dec(text: Seq<char>, sep: Seq<char>) {
    lemma_find_from(text, sep, 0);
}

/// `text` with every occurrence of the non-empty marker `pat` removed,
/// scanning left to right without re-examining removed spans.
pub open spec fn remove_all_spec(text: Seq<char>, pat: Seq<char>) -> Seq<char>
    recommends
        pat.len() > 0,
    decreases text.len(),
    when pat.len() > 0
    via remove_all_spec_dec
{
    match find_from(text, pat, 0) {
        None => text,
        Some(p) => text.subrange(0, p) + remove_all_spec(
            text.subrange(p + pat.len(), text.len() as int),
            pat,
        ),
    }
}

#[via_fn]
proof fn remove_all_spec_dec(text: Seq<char>, pat: Seq<char>) {
    lemma_find_from(text, pat, 0);
}

/// The views of a list of strings, in order.
pub open spec fn str_views(parts: Seq<String>) -> Seq<Seq<char>> {
    parts.map_values(|t: String| t@)
}

/// Splits `text` on every occurrence of the non-empty separator `sep`.
pub fn split_on(text: &str, sep: &str) -> (parts: Vec<String>)
    requires
        sep@.len() > 0,
    ensures
        str_views(parts@) == split_on_spec(text@, sep@),
{
    let mut parts: Vec<String> = Vec::new();
    let mut rest: &str = text;
    loop
        invariant_except_break
            sep@.len() > 0,
            str_views(parts@) + split_on_spec(rest@, sep@) == split_on_spec(text@, sep@),
        ensures
            str_views(parts@) == split_on_spec(text@, sep@),
        decreases rest@.len(),
    {
        let ghost prev = str_views(parts@);
        match find_at(rest, sep, 0) {
            Some(p) => {
                proof {
                    lemma_find_from(rest@, sep@, 0);
                }
                let rlen = rest.unicode_len();
                let slen = sep.unicode_len();
                let piece = rest.substring_char(0, p);
                let next = rest.substring_char(p + slen, rlen);
                parts.push(piece.to_owned());
                proof {
                    assert(str_views(parts@) =~= prev.push(piece@));
                    assert(split_on_spec(rest@, sep@) == seq![rest@.subrange(0, p as int)]
                        + split_on_spec(next@, sep@));
                    assert(prev.push(piece@) + split_on_spec(next@, sep@) =~= prev + split_on_spec(
                        rest@,
                        sep@,
                    ));
                }
                rest = next;
            },
            None => {
                parts.push(rest.to_owned());
                proof {
                    assert(split_on_spec(rest@, sep@) == seq![rest@]);
                    assert(str_views(parts@) =~= prev + split_on_spec(rest@, sep@));
                }
                break ;
            },
        }
    }
    parts
}

/// Removes every occurrence of the non-empty marker `pat` from `text`.
pub fn remove_all(text: &str, pat: &str) -> (r: String)
    requires
        pat@.len() > 0,
    ensures
        r@ == remove_all_spec(text@, pat@),
{
    let mut out = String::new();
    let mut rest: &str = text;
    loop
        invariant_except_break
            pat@.len() > 0,
            out@ + remove_all_spec(rest@, pat@) == remove_all_spec(text@, pat@),
        ensures
            out@ == remove_all_spec(text@, pat@),
        decreases rest@.len(),
    {
        let ghost prev = out@;
        match find_at(rest, pat, 0) {
            Some(p) => {
                proof {
                    lemma_find_from(rest@, pat@, 0);
                }
                let rlen = rest.unicode_len();
                let plen = pat.unicode_len();
                let piece = rest.substring_char(0, p);
                let next = rest.substring_char(p + plen, rlen);
                out.append(piece);
                proof {
                    assert(remove_all_spec(rest@, pat@) == rest@.subrange(0, p as int)
                        + remove_all_spec(next@, pat@));
                    assert(out@ + remove_all_spec(next@, pat@) =~= prev + remove_all_spec(
                        rest@,
                        pat@,
                    ));
                }
                rest = next;
            },
            None => {
                out.append(rest);
                proof {
                    assert(remove_all_spec(rest@, pat@) == rest@);
                    assert(out@ =~= prev + remove_all_spec(rest@, pat@));
                }
                break ;
            },
        }
    }
    out
}

/// `c` is a decimal digit.
pub open spec fn is_digit(c: char) -> bool {
    48 <= c as int && c as int <= 57
}

/// The numeric value of the digit `c`.
pub open spec fn digit_val(c: char) -> int {
    c as int - 48
}

/// Every character of `s` is a decimal digit.
pub open spec fn all_digits(s: Seq<char>) -> bool {
    forall|i: int| 0 <= i < s.len() ==> is_digit(s[i])
}

/// The value of the digit string `s` read in base ten.
pub open spec fn digits_val(s: Seq<char>) -> int
    decreases s.len(),
{
    if s.len() == 0 {
        0
    } else {
        digits_val(s.drop_last()) * 10 + digit_val(s.last())
    }
}

/// A digit string has a non-negative value.
pub proof fn lemma_digits_val_nonneg(s: Seq<char>)
    requires
        all_digits(s),
    ensures
        digits_val(s) >= 0,
    decreases s.len(),
{
    if s.len() > 0 {
        lemma_digits_val_nonneg(s.drop_last());
    }
}

/// The value of a prefix of a digit string never exceeds the whole value.
pub proof fn lemma_digits_val_prefix_le(s: Seq<char>, i: int)
    requires
        all_digits(s),
        0 <= i <= s.len(),
    ensures
        digits_val(s.take(i)) <= digits_val(s),
    decreases s.len(),
{
    if i == s.len() {
        assert(s.take(i) =~= s);
    } else {
        assert(s.drop_last().take(i) =~= s.take(i));
        lemma_digits_val_prefix_le(s.drop_last(), i);
        lemma_digits_val_nonneg(s.drop_last());
    }
}

/// What `parse_u32` returns: the base-ten value of `s`, provided `s` is a
/// non-empty all-digit string whose value fits in 32 bits.
pub open spec fn parse_u32_spec(s: Seq<char>) -> Option<u32> {
    if s.len() > 0 && all_digits(s) && digits_val(s) <= u32::MAX {
        Some(digits_val(s) as u32)
    } else {
        None
    }
}

/// Parses `text` as an unsigned base-ten number that fits in 32 bits.
pub fn parse_u32(text: &str) -> (r: Option<u32>)
    ensures
        r == parse_u32_spec(text@),
{
    let n = text.unicode_len();
    if n == 0 {
        return None;
    }
    let mut acc: u64 = 0;
    let mut i: usize = 0;
    while i < n
        invariant
            0 < n == text@.len(),
            i <= n,
            all_digits(text@.take(i as int)),
            acc == digits_val(text@.take(i as int)),
            acc <= u32::MAX,
        decreases n - i,
    {
        let c = text.get_char(i);
        let cv = c as u32;
        if cv < 48 || cv > 57 {
            proof {
                assert(!is_digit(text@[i as int]));
            }
            return None;
        }
        let d: u64 = (cv - 48) as u64;
        let nd: u64 = acc * 10 + d;
        proof {
            assert(text@.take(i + 1).drop_last() =~= text@.take(i as int));
            assert(text@.take(i + 1).last() == text@[i as int]);
            assert(nd == digits_val(text@.take(i + 1)));
        }
        if nd > u32::MAX as u64 {
            proof {
                if all_digits(text@) {
                    lemma_digits_val_prefix_le(text@, i + 1);
                }
            }
            return None;
        }
        acc = nd;
        i += 1;
    }
    proof {
        assert(text@.take(n as int) =~= text@);
    }
    Some(acc as u32)
}

/// What a decoded color channel is worth: the parsed value when it is a
/// valid decimal number in 0..=255, and 0 for any missing or invalid field.
pub open spec fn channel_of(s: Seq<char>) -> u32 {
    match parse_u32_spec(s) {
        Some(v) => if v <= 255 {
            v
        } else {
            0u32
        },
        None => 0u32,
    }
}

/// Decodes one color channel, defaulting any invalid field to 0.
pub fn channel(text: &str) -> (c: u32)
    ensures
        c == channel_of(text@),
        c <= 255,
{
    match parse_u32(text) {
        Some(v) => if v <= 255 {
            v
        } else {
            0
        },
        None => 0,
    }
}

} // verus!
