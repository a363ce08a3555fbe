//! Metadata extraction: apply user regex patterns to command output and
//! type the results as integer, floating-point text, or plain text.

use vstd::prelude::*;

use crate::config::MetadataPattern;
use crate::text::all_digits;
use crate::text::chars_to_string;
use crate::text::dec_digits;
use crate::text::int_text_body;
use crate::text::int_text_value;
use crate::text::is_int_text;
use crate::text::lemma_lex_lt_connex;
use crate::text::lemma_lex_lt_irreflexive;
use crate::text::lemma_lex_lt_transitive;
use crate::text::lex_lt;
use crate::text::parse_i64;
use crate::text::str_eq;
use crate::text::str_lt;
use crate::text::str_to_chars;
use crate::text::u64_to_string;

verus! {

/// One extracted metadata value.  A value that reads as an integer is kept
/// as one; one that reads as a floating-point numeral keeps its text,
/// since this library computes nothing from it; anything else is plain
/// text.
#[derive(Debug, PartialEq, Eq)]
pub enum MetadataValue {
    /// The text parsed as a signed integer.
    Integer(i64),
    /// The text read as a floating-point numeral, kept verbatim.
    Float(String),
    /// Any other text.
    Text(String),
}

/// The view of an optional string.
pub open spec fn option_str_view(o: Option<String>) -> Option<Seq<char>> {
    match o {
        Some(s) => Some(s@),
        None => None,
    }
}

/// The capture groups of the last match of a regex in a text, group 0
/// being the whole match; `None` when the pattern does not parse or
/// nothing matches.  The name records only that the result is a function
/// of pattern and text alone.
pub uninterp spec fn regex_last_groups(pattern: Seq<char>, text: Seq<char>) -> Option<
    Seq<Option<Seq<char>>>,
>;

/// Relies on `regex::Regex::new` and `Regex::captures_iter`: the capture
/// groups of the last match, each group's text or `None` where it did not
/// participate; `None` overall on a bad pattern or no match.
#[verifier::external_body]
fn last_match_groups(pattern: &str, text: &str) -> (r: Option<Vec<Option<String>>>)
    ensures
        match r {
            Some(groups) => regex_last_groups(pattern@, text@) == Some(
                groups@.map_values(|o: Option<String>| option_str_view(o)),
            ),
            None => regex_last_groups(pattern@, text@) is None,
        },
{
    let re = match regex::Regex::new(pattern) {
        Ok(re) => re,
        Err(_) => return None,
    };
    let caps = re.captures_iter(text).last()?;
    Some(caps.iter().map(|m| m.map(|x| x.as_str().to_string())).collect())
}

/// Replace every non-overlapping occurrence of a pattern, left to right.
pub open spec fn replace_all(s: Seq<char>, pat: Seq<char>, sub: Seq<char>) -> Seq<char>
    decreases s.len(),
{
    if pat.len() == 0 || s.len() < pat.len() {
        s
    } else if s.take(pat.len() as int) == pat {
        sub + replace_all(s.skip(pat.len() as int), pat, sub)
    } else {
        seq![s[0]] + replace_all(s.skip(1), pat, sub)
    }
}

/// Whether the pattern stands in the text at a position.
fn prefix_matches(sc: &Vec<char>, i: usize, pc: &Vec<char>) -> (r: bool)
    requires
        i + pc@.len() <= sc@.len(),
    ensures
        r == (sc@.subrange(i as int, i + pc@.len()) == pc@),
{
    let plen = pc.len();
    let total = sc.len();
    let ghost part = sc@.subrange(i as int, i + pc@.len());
    let mut k: usize = 0;
    while k < plen
        invariant
            k <= plen,
            total == sc@.len(),
            i + plen <= total,
            plen == pc@.len(),
            part == sc@.subrange(i as int, i + pc@.len()),
            forall|x: int| 0 <= x < k ==> #[trigger] part[x] == pc@[x],
        decreases plen - k,
    {
        proof {
            assert(part[k as int] == sc@[i + k]);
        }
        if sc[i + k] != pc[k] {
            proof {
                assert(part[k as int] != pc@[k as int]);
            }
            return false;
        }
        k = k + 1;
    }
    proof {
        assert(part =~= pc@);
    }
    true
}

/// Replace every occurrence of a pattern in a string.
pub fn replace_all_str(s: &str, pat: &str, sub: &str) -> (r: String)
    ensures
        r@ == replace_all(s@, pat@, sub@),
{
    let sc = str_to_chars(s);
    let pc = str_to_chars(pat);
    let subc = str_to_chars(sub);
    let n = sc.len();
    let plen = pc.len();
    if plen == 0 {
        return chars_to_string(&sc);
    }
    let mut out: Vec<char> = Vec::new();
    let mut i: usize = 0;
    proof {
        assert(s@.skip(0) =~= s@);
    }
    while i < n
        invariant
            i <= n,
            n == sc@.len(),
            sc@ == s@,
            pc@ == pat@,
            subc@ == sub@,
            plen == pc@.len(),
            plen > 0,
            replace_all(s@, pat@, sub@) =~= out@ + replace_all(s@.skip(i as int), pat@, sub@),
        decreases n - i,
    {
        let ghost rest = s@.skip(i as int);
        if plen <= n - i && prefix_matches(&sc, i, &pc) {
            proof {
                assert(rest.take(plen as int) =~= sc@.subrange(i as int, i + plen));
                assert(rest.skip(plen as int) =~= s@.skip(i + plen));
                assert(replace_all(rest, pat@, sub@) == sub@ + replace_all(
                    s@.skip(i + plen),
                    pat@,
                    sub@,
                ));
            }
            let ghost base = out@;
            let slen = subc.len();
            let mut x: usize = 0;
            while x < slen
                invariant
                    x <= slen,
                    slen == subc@.len(),
                    out@ =~= base + subc@.take(x as int),
                decreases slen - x,
            {
                out.push(subc[x]);
                x = x + 1;
            }
            proof {
                assert(subc@.take(slen as int) =~= subc@);
                assert(out@ =~= base + sub@);
            }
            i = i + plen;
        } else {
            proof {
                if plen <= n - i {
                    assert(rest.take(plen as int) =~= sc@.subrange(i as int, i + plen));
                    assert(rest.take(plen as int) != pat@);
                } else {
                    assert(rest.len() < plen);
                }
                assert(rest.skip(1) =~= s@.skip(i + 1));
                if rest.len() >= plen {
                    assert(replace_all(rest, pat@, sub@) == seq![rest[0]] + replace_all(
                        s@.skip(i + 1),
                        pat@,
                        sub@,
                    ));
                }
                assert(rest[0] == s@[i as int]);
            }
            out.push(sc[i]);
            i = i + 1;
        }
    }
    proof {
        assert(s@.skip(n as int).len() == 0);
        assert(replace_all(s@, pat@, sub@) =~= out@);
    }
    chars_to_string(&out)
}

/// Substitute `$1`, `$2`, … in a template by the capture groups, one group
/// after the other; a group that did not participate substitutes nothing.
pub open spec fn expand_from(t: Seq<char>, groups: Seq<Option<Seq<char>>>, i: int) -> Seq<char>
    decreases groups.len() - i,
{
    if i < 1 || i >= groups.len() {
        t
    } else {
        expand_from(
            match groups[i] {
                Some(g) => replace_all(t, seq!['$'] + dec_digits(i), g),
                None => t,
            },
            groups,
            i + 1,
        )
    }
}

/// The value text one pattern draws from an output: the first capture
/// group of the last match for a bare pattern, the expanded template for
/// a replacement pattern.
pub open spec fn apply_pattern_spec(output: Seq<char>, p: MetadataPattern) -> Option<Seq<char>> {
    match p {
        MetadataPattern::Simple(pat) => match regex_last_groups(pat@, output) {
            None => None,
            Some(groups) => {
                if groups.len() > 1 {
                    groups[1]
                } else {
                    None
                }
            },
        },
        MetadataPattern::WithReplacement(pat, repl) => match regex_last_groups(pat@, output) {
            None => None,
            Some(groups) => Some(expand_from(repl@, groups, 1)),
        },
    }
}

/// Apply one pattern to an output.
pub fn apply_pattern(output: &str, p: &MetadataPattern) -> (r: Option<String>)
    ensures
        option_str_view(r) == apply_pattern_spec(output@, *p),
{
    match p {
        MetadataPattern::Simple(pat) => {
            match last_match_groups(pat.as_str(), output) {
                None => None,
                Some(groups) => {
                    let ghost gv = groups@.map_values(|o: Option<String>| option_str_view(o));
                    if groups.len() > 1 {
                        match &groups[1] {
                            Some(s) => {
                                proof {
                                    assert(gv[1] == Some(s@));
                                }
                                Some(s.clone())
                            },
                            None => {
                                proof {
                                    assert(gv[1] == Option::<Seq<char>>::None);
                                }
                                None
                            },
                        }
                    } else {
                        None
                    }
                },
            }
        },
        MetadataPattern::WithReplacement(pat, repl) => {
            match last_match_groups(pat.as_str(), output) {
                None => None,
                Some(groups) => {
                    let ghost gv = groups@.map_values(|o: Option<String>| option_str_view(o));
                    let mut result: String = String::new();
                    result.append(repl.as_str());
                    let glen = groups.len();
                    let mut i: usize = 1;
                    proof {
                        assert(result@ == repl@);
                    }
                    while i < glen
                        invariant
                            1 <= i,
                            glen == groups@.len(),
                            glen == gv.len(),
                            gv == groups@.map_values(|o: Option<String>| option_str_view(o)),
                            expand_from(repl@, gv, 1) == expand_from(result@, gv, i as int),
                        decreases glen - i,
                    {
                        proof {
                            reveal_strlit("$");
                            assert(gv[i as int] == option_str_view(groups@[i as int]));
                        }
                        match &groups[i] {
                            Some(g) => {
                                let mut marker = String::new();
                                marker.append("$");
                                let digits = u64_to_string(i as u64);
                                marker.append(digits.as_str());
                                proof {
                                    assert(marker@ =~= seq!['$'] + dec_digits(i as int));
                                    assert(expand_from(result@, gv, i as int) == expand_from(
                                        replace_all(result@, marker@, g@),
                                        gv,
                                        i as int + 1,
                                    ));
                                }
                                let replaced = replace_all_str(
                                    result.as_str(),
                                    marker.as_str(),
                                    g.as_str(),
                                );
                                result = replaced;
                            },
                            None => {
                                proof {
                                    assert(expand_from(result@, gv, i as int) == expand_from(
                                        result@,
                                        gv,
                                        i as int + 1,
                                    ));
                                }
                            },
                        }
                        i = i + 1;
                    }
                    proof {
                        assert(expand_from(result@, gv, i as int) == result@);
                    }
                    Some(result)
                },
            }
        },
    }
}

/// The ASCII lower-case form of one character.
pub open spec fn lower_ascii(c: char) -> char {
    if 'A' <= c && c <= 'Z' {
        ((c as u8) + 32) as char
    } else {
        c
    }
}

/// The ASCII lower-case form of a sequence.
pub open spec fn lower_of(s: Seq<char>) -> Seq<char> {
    s.map_values(|c: char| lower_ascii(c))
}

/// The special floating-point words, in any letter case.
pub open spec fn is_special_float(s: Seq<char>) -> bool {
    lower_of(s) == ("inf")@ || lower_of(s) == ("infinity")@ || lower_of(s) == ("nan")@
}

/// A mantissa: digits, or digits around one point with a digit somewhere.
pub open spec fn is_mantissa(s: Seq<char>) -> bool {
    (s.len() > 0 && all_digits(s)) || (s.len() > 1 && exists|k: int|
        0 <= k < s.len() && s[k] == '.' && all_digits(#[trigger] s.take(k)) && all_digits(
            s.skip(k + 1),
        ))
}

/// A floating-point numeral after the sign: a mantissa with an optional
/// exponent part.
pub open spec fn is_float_body(s: Seq<char>) -> bool {
    is_mantissa(s) || exists|k: int|
        0 <= k < s.len() && (s[k] == 'e' || s[k] == 'E') && is_mantissa(#[trigger] s.take(k))
            && is_int_text(s.skip(k + 1))
}

/// A floating-point numeral: an optional sign before a mantissa with
/// optional exponent, or one of the special words.  This is the grammar
/// that `str::parse` documents for floating-point types.
pub open spec fn is_float_text(s: Seq<char>) -> bool {
    is_special_float(int_text_body(s)) || is_float_body(int_text_body(s))
}

/// Whether the characters of a slice of the vector are all digits.
fn digits_range(chars: &Vec<char>, lo: usize, hi: usize) -> (r: bool)
    requires
        lo <= hi <= chars@.len(),
    ensures
        r == all_digits(chars@.subrange(lo as int, hi as int)),
{
    let ghost part = chars@.subrange(lo as int, hi as int);
    let mut i: usize = lo;
    while i < hi
        invariant
            lo <= i <= hi <= chars@.len(),
            part == chars@.subrange(lo as int, hi as int),
            forall|x: int| 0 <= x < i - lo ==> '0' <= #[trigger] part[x] <= '9',
        decreases hi - i,
    {
        let c = chars[i];
        proof {
            assert(part[i - lo] == chars@[i as int]);
        }
        if c < '0' || c > '9' {
            proof {
                assert(!('0' <= part[i - lo] <= '9'));
            }
            return false;
        }
        i = i + 1;
    }
    proof {
        assert(all_digits(part));
    }
    true
}

/// Whether a slice of the vector is a mantissa.
fn mantissa_range(chars: &Vec<char>, lo: usize, hi: usize) -> (r: bool)
    requires
        lo <= hi <= chars@.len(),
    ensures
        r == is_mantissa(chars@.subrange(lo as int, hi as int)),
{
    let ghost part = chars@.subrange(lo as int, hi as int);
    // Find the first point.
    let mut d: usize = lo;
    while d < hi && chars[d] != '.'
        invariant
            lo <= d <= hi <= chars@.len(),
            part == chars@.subrange(lo as int, hi as int),
            forall|x: int| 0 <= x < d - lo ==> #[trigger] part[x] != '.',
        decreases hi - d,
    {
        proof {
            assert(part[d - lo] == chars@[d as int]);
        }
        d = d + 1;
    }
    if d == hi {
        // No point anywhere: digits alone or nothing.
        let digits_ok = digits_range(chars, lo, hi);
        let r = hi > lo && digits_ok;
        proof {
            if !r {
                if part.len() > 1 {
                    assert forall|k: int|
                        0 <= k < part.len() && part[k] == '.' implies !(all_digits(
                    #[trigger] part.take(k)) && all_digits(part.skip(k + 1))) by {
                        assert(part[k] != '.');
                    }
                }
                assert(!is_mantissa(part));
            } else {
                assert(is_mantissa(part));
            }
        }
        return r;
    }
    proof {
        assert(part[d - lo] == chars@[d as int]);
        assert(part[d - lo] == '.');
    }
    // Digits before and after the point, and something besides the point.
    let left_ok = digits_range(chars, lo, d);
    let right_ok = digits_range(chars, d + 1, hi);
    let r = left_ok && right_ok && hi - lo > 1;
    proof {
        let kd = d - lo;
        assert(part.take(kd) =~= chars@.subrange(lo as int, d as int));
        assert(part.skip(kd + 1) =~= chars@.subrange(d + 1, hi as int));
        if r {
            assert(is_mantissa(part));
        } else {
            assert(!(part.len() > 0 && all_digits(part))) by {
                assert(part[kd] == '.');
            }
            if part.len() > 1 {
                assert forall|k: int|
                    0 <= k < part.len() && part[k] == '.' implies !(all_digits(
                #[trigger] part.take(k)) && all_digits(part.skip(k + 1))) by {
                    if k < kd {
                        assert(part[k] != '.');
                        assert(false);
                    } else if k > kd {
                        assert(part.take(k)[kd] == '.');
                        assert(!all_digits(part.take(k)));
                    } else {
                        assert(!(left_ok && right_ok && part.len() > 1));
                    }
                }
            }
            assert(!is_mantissa(part));
        }
    }
    r
}

/// Whether a slice of the vector is an optionally signed run of digits.
fn int_text_range(chars: &Vec<char>, lo: usize, hi: usize) -> (r: bool)
    requires
        lo <= hi <= chars@.len(),
    ensures
        r == is_int_text(chars@.subrange(lo as int, hi as int)),
{
    let ghost part = chars@.subrange(lo as int, hi as int);
    let start: usize = if lo < hi && (chars[lo] == '+' || chars[lo] == '-') {
        lo + 1
    } else {
        lo
    };
    proof {
        if lo < hi {
            assert(part[0] == chars@[lo as int]);
        }
        assert(int_text_body(part) =~= chars@.subrange(start as int, hi as int));
    }
    let digits_ok = digits_range(chars, start, hi);
    let r = start < hi && digits_ok;
    r
}

/// Whether the lower-cased tail of the vector equals a word.
fn lower_eq_range(chars: &Vec<char>, lo: usize, word: &str) -> (r: bool)
    requires
        lo <= chars@.len(),
    ensures
        r == (lower_of(chars@.skip(lo as int)) == word@),
{
    let ghost part = chars@.skip(lo as int);
    let wlen = word.unicode_len();
    let total = chars.len();
    if total - lo != wlen {
        proof {
            assert(lower_of(part).len() == part.len());
        }
        return false;
    }
    let mut i: usize = 0;
    while i < wlen
        invariant
            i <= wlen,
            total == chars@.len(),
            lo + wlen == total,
            wlen == word@.len(),
            part == chars@.skip(lo as int),
            forall|x: int| 0 <= x < i ==> lower_ascii(#[trigger] part[x]) == word@[x],
        decreases wlen - i,
    {
        let c = chars[lo + i];
        let lc: char = if c >= 'A' && c <= 'Z' {
            ((c as u8) + 32) as char
        } else {
            c
        };
        proof {
            assert(part[i as int] == chars@[lo + i]);
            assert(lc == lower_ascii(part[i as int]));
        }
        if lc != word.get_char(i) {
            proof {
                assert(lower_of(part)[i as int] != word@[i as int]);
            }
            return false;
        }
        i = i + 1;
    }
    proof {
        assert(lower_of(part) =~= word@);
    }
    true
}

/// Whether the text reads as a floating-point numeral.
pub fn is_float_text_exec(s: &str) -> (r: bool)
    ensures
        r == is_float_text(s@),
{
    let chars = str_to_chars(s);
    let n = chars.len();
    let start: usize = if n > 0 && (chars[0] == '+' || chars[0] == '-') {
        1
    } else {
        0
    };
    let ghost body = int_text_body(s@);
    proof {
        assert(body =~= chars@.skip(start as int));
    }
    if lower_eq_range(&chars, start, "inf") || lower_eq_range(&chars, start, "infinity")
        || lower_eq_range(&chars, start, "nan") {
        return true;
    }
    // Find the first exponent marker.
    let mut k: usize = start;
    while k < n && chars[k] != 'e' && chars[k] != 'E'
        invariant
            start <= k <= n,
            n == chars@.len(),
            body == chars@.skip(start as int),
            forall|x: int| 0 <= x < k - start ==> #[trigger] body[x] != 'e' && body[x] != 'E',
        decreases n - k,
    {
        proof {
            assert(body[k - start] == chars@[k as int]);
        }
        k = k + 1;
    }
    if k == n {
        // No exponent: a bare mantissa, or nothing.
        let r = mantissa_range(&chars, start, n);
        proof {
            assert(chars@.subrange(start as int, n as int) =~= body);
            if !r {
                assert forall|x: int|
                    0 <= x < body.len() && (body[x] == 'e' || body[x] == 'E') implies !(is_mantissa(
                #[trigger] body.take(x)) && is_int_text(body.skip(x + 1))) by {
                    assert(body[x] != 'e' && body[x] != 'E');
                }
                assert(!is_float_body(body));
            }
        }
        return r;
    }
    proof {
        assert(body[k - start] == chars@[k as int]);
        assert(body[k - start] == 'e' || body[k - start] == 'E');
    }
    let m_ok = mantissa_range(&chars, start, k);
    let e_ok = int_text_range(&chars, k + 1, n);
    let r = m_ok && e_ok;
    proof {
        let ke = k - start;
        assert(chars@.subrange(start as int, k as int) =~= body.take(ke));
        assert(chars@.subrange(k + 1, n as int) =~= body.skip(ke + 1));
        if r {
            assert(is_float_body(body));
        } else {
            // The marker sits in the text, so it is not a bare mantissa,
            // and any split after the first marker would carry the marker
            // inside its mantissa.
            assert(!(body.len() > 0 && all_digits(body))) by {
                assert(!('0' <= body[ke] <= '9'));
            }
            assert(!is_mantissa(body)) by {
                if body.len() > 1 {
                    assert forall|x: int|
                        0 <= x < body.len() && body[x] == '.' implies !(all_digits(
                    #[trigger] body.take(x)) && all_digits(body.skip(x + 1))) by {
                        if x <= ke {
                            assert(body.skip(x + 1)[ke - x - 1] == body[ke]);
                            assert(!all_digits(body.skip(x + 1)));
                        } else {
                            assert(body.take(x)[ke] == body[ke]);
                            assert(!all_digits(body.take(x)));
                        }
                    }
                }
            }
            assert forall|x: int|
                0 <= x < body.len() && (body[x] == 'e' || body[x] == 'E') implies !(is_mantissa(
            #[trigger] body.take(x)) && is_int_text(body.skip(x + 1))) by {
                if x < ke {
                    assert(body[x] != 'e' && body[x] != 'E');
                } else if x == ke {
                    assert(!(m_ok && e_ok));
                } else {
                    let pre = body.take(x);
                    assert(pre[ke] == body[ke]);
                    assert(!(pre.len() > 0 && all_digits(pre))) by {
                        assert(!('0' <= pre[ke] <= '9'));
                    }
                    if pre.len() > 1 {
                        assert forall|y: int|
                            0 <= y < pre.len() && pre[y] == '.' implies !(all_digits(
                        #[trigger] pre.take(y)) && all_digits(pre.skip(y + 1))) by {
                            if y < ke {
                                assert(pre.skip(y + 1)[ke - y - 1] == body[ke]);
                                assert(!all_digits(pre.skip(y + 1)));
                            } else if y == ke {
                                assert(pre[y] == body[ke]);
                                assert(false);
                            } else {
                                assert(pre.take(y)[ke] == body[ke]);
                                assert(!all_digits(pre.take(y)));
                            }
                        }
                    }
                    assert(!is_mantissa(pre));
                }
            }
            assert(!is_float_body(body));
        }
    }
    r
}

/// What a typed value must be for a value text: an in-range integer
/// numeral becomes that integer, a floating-point numeral keeps its text,
/// anything else is plain text.
pub open spec fn value_matches(r: MetadataValue, s: Seq<char>) -> bool {
    if is_int_text(s) && i64::MIN <= int_text_value(s) <= i64::MAX {
        r matches MetadataValue::Integer(v) && v as int == int_text_value(s)
    } else if is_float_text(s) {
        r matches MetadataValue::Float(t) && t@ == s
    } else {
        r matches MetadataValue::Text(t) && t@ == s
    }
}

/// Type one value text.
pub fn parse_value(s: String) -> (r: MetadataValue)
    ensures
        value_matches(r, s@),
{
    match parse_i64(s.as_str()) {
        Some(v) => MetadataValue::Integer(v),
        None => {
            if is_float_text_exec(s.as_str()) {
                MetadataValue::Float(s)
            } else {
                MetadataValue::Text(s)
            }
        },
    }
}

/// Whether metadata keys are strictly increasing.
pub open spec fn md_sorted(s: Seq<(String, MetadataValue)>) -> bool {
    forall|i: int, j: int|
        0 <= i < j < s.len() ==> lex_lt((#[trigger] s[i]).0@, (#[trigger] s[j]).0@)
}

/// Whether some metadata entry carries the key.
pub open spec fn md_has_key(s: Seq<(String, MetadataValue)>, k: Seq<char>) -> bool {
    exists|i: int| 0 <= i < s.len() && (#[trigger] s[i]).0@ == k
}

/// Put one metadata entry in, keeping keys sorted; an existing key gets
/// the new value.
pub fn insert_metadata(out: &mut Vec<(String, MetadataValue)>, k: String, v: MetadataValue)
    requires
        md_sorted(old(out)@),
    ensures
        md_sorted(final(out)@),
        forall|x: Seq<char>| #[trigger]
            md_has_key(final(out)@, x) == (md_has_key(old(out)@, x) || x == k@),
        forall|e: int|
            0 <= e < final(out)@.len() ==> (((#[trigger] final(out)@[e]).0@ == k@
                ==> final(out)@[e].1 == v) && (final(out)@[e].0@ != k@ ==> exists|j: int|
                0 <= j < old(out)@.len() && #[trigger] old(out)@[j] == final(out)@[e])),
{
    let ghost s0 = out@;
    let n = out.len();
    let mut i: usize = 0;
    while i < n && str_lt(out[i].0.as_str(), k.as_str())
        invariant
            md_sorted(s0),
            out@ == s0,
            i <= n,
            n == s0.len(),
            forall|j: int| 0 <= j < i ==> lex_lt((#[trigger] s0[j]).0@, k@),
        decreases n - i,
    {
        i = i + 1;
    }
    if i < n && str_eq(out[i].0.as_str(), k.as_str()) {
        out[i].1 = v;
        proof {
            let s1 = out@;
            assert(s1 =~= s0.update(i as int, (s0[i as int].0, v)));
            assert forall|x: int, y: int| 0 <= x < y < s1.len() implies lex_lt(
                (#[trigger] s1[x]).0@,
                (#[trigger] s1[y]).0@,
            ) by {
                assert(s1[x].0 == s0[x].0);
                assert(s1[y].0 == s0[y].0);
            }
            assert forall|x: Seq<char>| #[trigger]
                md_has_key(s1, x) == (md_has_key(s0, x) || x == k@) by {
                if md_has_key(s1, x) {
                    let p = choose|p: int| 0 <= p < s1.len() && (#[trigger] s1[p]).0@ == x;
                    assert(s0[p].0@ == x);
                }
                if md_has_key(s0, x) {
                    let p = choose|p: int| 0 <= p < s0.len() && (#[trigger] s0[p]).0@ == x;
                    assert(s1[p].0@ == x);
                }
                if x == k@ {
                    assert(s1[i as int].0@ == x);
                }
            }
            assert forall|e: int|
                0 <= e < s1.len() implies (((#[trigger] s1[e]).0@ == k@ ==> s1[e].1 == v) && (
            s1[e].0@ != k@ ==> exists|j: int| 0 <= j < s0.len() && #[trigger] s0[j] == s1[e])) by {
                if s1[e].0@ == k@ {
                    if e != i {
                        assert(s0[e].0@ == k@ && s0[i as int].0@ == k@);
                        if e < i {
                            assert(lex_lt(s0[e].0@, s0[i as int].0@));
                        } else {
                            assert(lex_lt(s0[i as int].0@, s0[e].0@));
                        }
                        lemma_lex_lt_irreflexive(k@);
                        assert(false);
                    }
                } else {
                    assert(s0[e] == s1[e]);
                }
            }
        }
    } else {
        proof {
            if i < n {
                lemma_lex_lt_connex(s0[i as int].0@, k@);
                assert(lex_lt(k@, s0[i as int].0@));
            }
        }
        out.insert(i, (k, v));
        proof {
            let s1 = out@;
            let ki = i as int;
            assert forall|j: int| 0 <= j < s1.len() implies s1[j] == (if j < ki {
                s0[j]
            } else if j == ki {
                s1[ki]
            } else {
                s0[j - 1]
            }) by {}
            assert(s1[ki].0@ == k@ && s1[ki].1 == v);
            assert forall|x: int, y: int| 0 <= x < y < s1.len() implies lex_lt(
                (#[trigger] s1[x]).0@,
                (#[trigger] s1[y]).0@,
            ) by {
                if y > ki {
                    assert(y - 1 >= ki && y - 1 < s0.len());
                    assert(lex_lt(k@, s0[ki].0@));
                    if y - 1 > ki {
                        lemma_lex_lt_transitive(k@, s0[ki].0@, s0[y - 1].0@);
                    }
                    assert(lex_lt(k@, s0[y - 1].0@));
                    if x < ki {
                        lemma_lex_lt_transitive(s0[x].0@, k@, s0[y - 1].0@);
                    }
                }
            }
            assert forall|x: Seq<char>| #[trigger]
                md_has_key(s1, x) == (md_has_key(s0, x) || x == k@) by {
                if md_has_key(s1, x) {
                    let p = choose|p: int| 0 <= p < s1.len() && (#[trigger] s1[p]).0@ == x;
                    if p < ki {
                        assert(s0[p].0@ == x);
                    } else if p > ki {
                        assert(s0[p - 1].0@ == x);
                    }
                }
                if md_has_key(s0, x) {
                    let p = choose|p: int| 0 <= p < s0.len() && (#[trigger] s0[p]).0@ == x;
                    if p < ki {
                        assert(s1[p].0@ == x);
                    } else {
                        assert(s1[p + 1].0@ == x);
                    }
                }
                if x == k@ {
                    assert(s1[ki].0@ == x);
                }
            }
            assert forall|e: int|
                0 <= e < s1.len() implies (((#[trigger] s1[e]).0@ == k@ ==> s1[e].1 == v) && (
            s1[e].0@ != k@ ==> exists|j: int| 0 <= j < s0.len() && #[trigger] s0[j] == s1[e])) by {
                if s1[e].0@ == k@ && e != ki {
                    if e < ki {
                        assert(lex_lt(s0[e].0@, k@));
                        lemma_lex_lt_irreflexive(k@);
                    } else {
                        assert(lex_lt(k@, s0[e - 1].0@));
                        lemma_lex_lt_irreflexive(k@);
                    }
                    assert(false);
                }
                if s1[e].0@ != k@ {
                    if e < ki {
                        assert(s0[e] == s1[e]);
                    } else {
                        assert(e != ki);
                        assert(s0[e - 1] == s1[e]);
                    }
                }
            }
        }
    }
}

/// Whether one extracted entry is justified by some pattern: the pattern
/// carries the entry's key, it matched, and the entry's value is the typed
/// reading of what it drew from the output.
pub open spec fn entry_from_patterns(
    entry: (String, MetadataValue),
    output: Seq<char>,
    patterns: Seq<(String, MetadataPattern)>,
) -> bool {
    exists|p: int|
        0 <= p < patterns.len() && entry.0@ == (#[trigger] patterns[p]).0@ && apply_pattern_spec(
            output,
            patterns[p].1,
        ) is Some && value_matches(entry.1, apply_pattern_spec(output, patterns[p].1)->0)
}

/// Extract every configured metadata value from a command's output.  Each
/// key whose pattern matches appears once, keys sorted; its value is the
/// typed reading of what the pattern drew from the output.
pub fn extract_metadata(output: &str, patterns: &Vec<(String, MetadataPattern)>) -> (r: Vec<
    (String, MetadataValue),
>)
    ensures
        md_sorted(r@),
        forall|e: int|
            0 <= e < r@.len() ==> entry_from_patterns(#[trigger] r@[e], output@, patterns@),
        forall|p: int|
            0 <= p < patterns@.len() && apply_pattern_spec(output@, (#[trigger] patterns@[p]).1) is
                Some ==> md_has_key(r@, patterns@[p].0@),
{
    let mut out: Vec<(String, MetadataValue)> = Vec::new();
    let n = patterns.len();
    let mut i: usize = 0;
    while i < n
        invariant
            i <= n,
            n == patterns@.len(),
            md_sorted(out@),
            forall|e: int|
                0 <= e < out@.len() ==> entry_from_patterns(#[trigger] out@[e], output@, patterns@),
            forall|p: int|
                0 <= p < i && apply_pattern_spec(output@, (#[trigger] patterns@[p]).1) is Some
                    ==> md_has_key(out@, patterns@[p].0@),
        decreases n - i,
    {
        let ghost out0 = out@;
        match apply_pattern(output, &patterns[i].1) {
            Some(text) => {
                let ghost tv = text@;
                let value = parse_value(text);
                let key = patterns[i].0.clone();
                proof {
                    assert(apply_pattern_spec(output@, patterns@[i as int].1) == Some(tv));
                    assert(value_matches(value, tv));
                }
                insert_metadata(&mut out, key, value);
                proof {
                    assert forall|e: int|
                        0 <= e < out@.len() implies entry_from_patterns(
                        #[trigger] out@[e],
                        output@,
                        patterns@,
                    ) by {
                        if out@[e].0@ == patterns@[i as int].0@ {
                            assert(out@[e].1 == value);
                            assert(apply_pattern_spec(output@, patterns@[i as int].1)->0 == tv);
                            assert(value_matches(out@[e].1, tv));
                            assert(out@[e].0@ == (patterns@[i as int]).0@);
                            assert(entry_from_patterns(out@[e], output@, patterns@));
                        } else {
                            let j = choose|j: int|
                                0 <= j < out0.len() && #[trigger] out0[j] == out@[e];
                            assert(entry_from_patterns(out0[j], output@, patterns@));
                        }
                    }
                    assert forall|p: int|
                        0 <= p < i + 1 && apply_pattern_spec(
                            output@,
                            (#[trigger] patterns@[p]).1,
                        ) is Some implies md_has_key(out@, patterns@[p].0@) by {}
                }
            },
            None => (),
        }
        i = i + 1;
    }
    out
}

} // verus!
