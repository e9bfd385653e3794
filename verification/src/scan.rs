//! Verified text scanning over character sequences.
//!
//! The listing extractor hands this module raw attribute strings; here the
//! interesting fragments are located and decoded: the first occurrence of a
//! marker, the decimal version number between `"Version: "` and `'&'`, and
//! the icon name between `"icon_"` and `".svg"`.

use vstd::prelude::*;

verus! {

/// `pat` occurs in `s` starting exactly at index `i`.
pub open spec fn match_at(s: Seq<char>, pat: Seq<char>, i: int) -> bool {
    0 <= i && i + pat.len() <= s.len() && s.subrange(i, i + pat.len() as int) == pat
}

/// Index of the first occurrence of `pat` in `s` at or after `i`.
pub open spec fn find_at_or_after(s: Seq<char>, pat: Seq<char>, i: int) -> Option<int>
    decreases s.len() - i + 1,
        when 0 <= i
{
    if i + pat.len() > s.len() {
        None
    } else if match_at(s, pat, i) {
        Some(i)
    } else {
        find_at_or_after(s, pat, i + 1)
    }
}

/// What a successful find means: a match at the found index, no earlier one.
pub proof fn lemma_find_found(s: Seq<char>, pat: Seq<char>, i: int, j: int)
    requires
        0 <= i,
        find_at_or_after(s, pat, i) == Some(j),
    ensures
        i <= j,
        match_at(s, pat, j),
    decreases s.len() - i + 1,
{
    if i + pat.len() > s.len() {
    } else if match_at(s, pat, i) {
    } else {
        lemma_find_found(s, pat, i + 1, j);
    }
}

fn match_at_exec(s: &str, pat: &str, i: usize, n: usize, m: usize) -> (r: bool)
    requires
        n == s@.len(),
        m == pat@.len(),
        i + m <= n,
    ensures
        r == match_at(s@, pat@, i as int),
{
    let mut j: usize = 0;
    while j < m
        invariant
            n == s@.len(),
            m == pat@.len(),
            i + m <= n,
            j <= m,
            forall|k: int| 0 <= k < j ==> s@[i + k] == pat@[k],
        decreases m - j,
    {
        if s.get_char(i + j) != pat.get_char(j) {
            proof {
                assert(s@.subrange(i as int, i + m) != pat@) by {
                    assert(s@.subrange(i as int, i + m)[j as int] == s@[i + j]);
                }
            }
            return false;
        }
        j += 1;
    }
    proof {
        assert(s@.subrange(i as int, i + m) =~= pat@);
    }
    true
}

/// Whether `pat` occurs in `s` starting exactly at `i`.
pub fn has_match_at(s: &str, pat: &str, i: usize) -> (r: bool)
    requires
        i + pat@.len() <= s@.len(),
    ensures
        r == match_at(s@, pat@, i as int),
{
    let n = s.unicode_len();
    let m = pat.unicode_len();
    match_at_exec(s, pat, i, n, m)
}

/// First occurrence of `pat` in `s` at or after `from`, if any.
pub fn find_sub_from(s: &str, pat: &str, from: usize) -> (r: Option<usize>)
    requires
        from <= s@.len(),
    ensures
        match r {
            Some(j) => find_at_or_after(s@, pat@, from as int) == Some(j as int),
            None => find_at_or_after(s@, pat@, from as int) is None,
        },
{
    let n = s.unicode_len();
    let m = pat.unicode_len();
    if m > n {
        return None;
    }
    if from > n - m {
        return None;
    }
    let mut i: usize = from;
    while i < n - m
        invariant
            n == s@.len(),
            m == pat@.len(),
            m <= n,
            from <= i,
            i <= n - m,
            find_at_or_after(s@, pat@, from as int) == find_at_or_after(s@, pat@, i as int),
        decreases n - i,
    {
        if match_at_exec(s, pat, i, n, m) {
            return Some(i);
        }
        i += 1;
    }
    if match_at_exec(s, pat, i, n, m) {
        Some(i)
    } else {
        proof {
            assert(find_at_or_after(s@, pat@, i as int + 1) is None);
        }
        None
    }
}

/// A decimal digit.
pub open spec fn is_digit(c: char) -> bool {
    '0' as int <= c as int && c as int <= '9' as int
}

pub open spec fn all_digits(s: Seq<char>) -> bool {
    forall|i: int| 0 <= i < s.len() ==> is_digit(#[trigger] s[i])
}

/// The value of a run of decimal digits, most significant first.
pub open spec fn digits_val(s: Seq<char>) -> int
    decreases s.len(),
{
    if s.len() == 0 {
        0
    } else {
        digits_val(s.drop_last()) * 10 + (s.last() as int - '0' as int)
    }
}

pub proof fn lemma_digits_val_nonneg(s: Seq<char>)
    requires
        all_digits(s),
    ensures
        digits_val(s) >= 0,
    decreases s.len(),
{
    if s.len() > 0 {
        assert(all_digits(s.drop_last())) by {
            assert(forall|i: int|
                0 <= i < s.len() - 1 ==> #[trigger] s.drop_last()[i] == s[i]);
        }
        lemma_digits_val_nonneg(s.drop_last());
    }
}

/// A run of digits is worth at least any of its prefixes.
pub proof fn lemma_digits_val_prefix_le(s: Seq<char>, k: int)
    requires
        all_digits(s),
        0 <= k <= s.len(),
    ensures
        digits_val(s.subrange(0, k)) <= digits_val(s),
    decreases s.len() - k,
{
    if k < s.len() {
        lemma_digits_val_prefix_le(s, k + 1);
        let a = s.subrange(0, k);
        let b = s.subrange(0, k + 1);
        assert(b.drop_last() =~= a);
        assert(is_digit(s[k]));
        assert(all_digits(a)) by {
            assert(forall|i: int| 0 <= i < k ==> #[trigger] a[i] == s[i]);
        }
        lemma_digits_val_nonneg(a);
        assert(digits_val(b) == digits_val(a) * 10 + (s[k] as int - '0' as int));
        assert(digits_val(a) <= digits_val(b));
    } else {
        assert(s.subrange(0, k) =~= s);
    }
}

/// Decode `s[from..to]` as a decimal `u32`: all characters must be digits,
/// the run must be non-empty, and the value must fit.
pub fn parse_u32_range(s: &str, from: usize, to: usize) -> (r: Option<u32>)
    requires
        from <= to,
        to <= s@.len(),
    ensures
        ({
            let d = s@.subrange(from as int, to as int);
            r == if from < to && all_digits(d) && digits_val(d) <= u32::MAX {
                Some(digits_val(d) as u32)
            } else {
                None::<u32>
            }
        }),
{
    let ghost d = s@.subrange(from as int, to as int);
    if from == to {
        return None;
    }
    let mut acc: u64 = 0;
    let mut i: usize = from;
    while i < to
        invariant
            from <= i <= to,
            to <= s@.len(),
            d == s@.subrange(from as int, to as int),
            all_digits(s@.subrange(from as int, i as int)),
            acc as int == digits_val(s@.subrange(from as int, i as int)),
            acc <= u32::MAX,
        decreases to - i,
    {
        let c = s.get_char(i);
        let ghost pre = s@.subrange(from as int, i as int);
        let ghost ext = s@.subrange(from as int, i + 1);
        if c < '0' || c > '9' {
            proof {
                assert(!is_digit(d[i - from]));
            }
            return None;
        }
        proof {
            assert(ext.drop_last() =~= pre);
            assert(ext.last() == s@[i as int]);
            assert(forall|k: int| 0 <= k < ext.len() ==> #[trigger] ext[k] == d[k]);
            assert(all_digits(ext));
        }
        let dv: u64 = (c as u32 as u64) - ('0' as u32 as u64);
        acc = acc * 10 + dv;
        i += 1;
        if acc > u32::MAX as u64 {
            proof {
                assert(digits_val(ext) == acc as int);
                assert(ext =~= d.subrange(0, i - from));
                if all_digits(d) {
                    lemma_digits_val_prefix_le(d, i - from);
                    assert(digits_val(d) > u32::MAX);
                }
            }
            return None;
        }
    }
    proof {
        assert(s@.subrange(from as int, i as int) =~= d);
    }
    Some(acc as u32)
}

/// Where a version number sits in a property string: the digits between the
/// first `"Version: "` marker and the next `'&'`.
pub open spec fn version_in(s: Seq<char>) -> Option<int> {
    match find_at_or_after(s, "Version: "@, 0) {
        None => None,
        Some(p) => {
            let st = p + "Version: "@.len();
            match find_at_or_after(s, "&"@, st) {
                None => None,
                Some(e) => {
                    let d = s.subrange(st, e);
                    if 0 < d.len() && all_digits(d) && digits_val(d) <= u32::MAX {
                        Some(digits_val(d))
                    } else {
                        None
                    }
                },
            }
        },
    }
}

/// Extract the remote version from a property string, as the portal prints
/// it: the decimal run between `"Version: "` and the following `'&'`.
pub fn extract_version(s: &str) -> (r: Option<u32>)
    ensures
        match r {
            Some(v) => version_in(s@) == Some(v as int),
            None => version_in(s@) is None,
        },
{
    let n = s.unicode_len();
    let marker = "Version: ";
    let p = match find_sub_from(s, marker, 0) {
        Some(p) => p,
        None => {
            return None;
        },
    };
    proof {
        lemma_find_found(s@, marker@, 0, p as int);
        assert(p + marker@.len() <= n);
    }
    let st = p + marker.unicode_len();
    let e = match find_sub_from(s, "&", st) {
        Some(e) => e,
        None => {
            return None;
        },
    };
    proof {
        lemma_find_found(s@, "&"@, st as int, e as int);
    }
    let r = parse_u32_range(s, st, e);
    proof {
        let d = s@.subrange(st as int, e as int);
        if 0 < d.len() && all_digits(d) && digits_val(d) <= u32::MAX {
            lemma_digits_val_nonneg(d);
        }
    }
    r
}

/// Where an icon name sits in an image source: the characters between the
/// first `"icon_"` marker and the next `".svg"`.
pub open spec fn icon_in(s: Seq<char>) -> Option<Seq<char>> {
    match find_at_or_after(s, "icon_"@, 0) {
        None => None,
        Some(p) => {
            let st = p + "icon_"@.len();
            match find_at_or_after(s, ".svg"@, st) {
                None => None,
                Some(e) => Some(s.subrange(st, e)),
            }
        },
    }
}

/// Extract the icon name from an image source attribute; the icon name is
/// the portal's kind hint for a listing entry.
pub fn icon_hint(src: &str) -> (r: Option<String>)
    ensures
        match r {
            Some(h) => icon_in(src@) == Some(h@),
            None => icon_in(src@) is None,
        },
{
    let n = src.unicode_len();
    let marker = "icon_";
    let p = match find_sub_from(src, marker, 0) {
        Some(p) => p,
        None => {
            return None;
        },
    };
    proof {
        lemma_find_found(src@, marker@, 0, p as int);
        assert(p + marker@.len() <= n);
    }
    let st = p + marker.unicode_len();
    let e = match find_sub_from(src, ".svg", st) {
        Some(e) => e,
        None => {
            return None;
        },
    };
    proof {
        lemma_find_found(src@, ".svg"@, st as int, e as int);
    }
    Some(src.substring_char(st, e).to_owned())
}

} // verus!
