//! The git-trailer attestation: the combined verification hash, its
//! truncated form, the `name:hash,…` trailer value, and the walks that
//! compute, check, and seed hashes for a whole configuration.

use vstd::prelude::*;

use crate::cache::cache_at;
use crate::cache::cache_has;
use crate::cache::CacheState;
use crate::cache::VerificationStatus;
use crate::config::config_hash_of;
use crate::config::last_wins_map;
use crate::config::Config;
use crate::config::Verification;
use crate::config::VerificationItem;
use crate::graph::DependencyGraph;
use crate::hasher::blake3_hex;
use crate::hasher::blake3_hex_of;
use crate::hasher::compute_check_hash;
use crate::hasher::HashError;
use crate::strmap::StrMap;
use crate::text::chars_to_string;
use crate::text::str_to_chars;

verus! {

/// How many characters of the combined hash a trailer carries.
pub const TRAILER_HASH_LENGTH: usize = 8;

/// The truncated form of a hash: its first eight characters.
pub open spec fn truncate8(s: Seq<char>) -> Seq<char> {
    if s.len() <= 8 {
        s
    } else {
        s.take(8)
    }
}

/// Truncate a full hash to the trailer length.
pub fn truncate_hash(hash: &str) -> (r: String)
    ensures
        r@ == truncate8(hash@),
{
    let len = hash.unicode_len();
    let n: usize = if len < TRAILER_HASH_LENGTH {
        len
    } else {
        TRAILER_HASH_LENGTH
    };
    let mut out: Vec<char> = Vec::new();
    let mut i: usize = 0;
    while i < n
        invariant
            i <= n,
            n <= len,
            len == hash@.len(),
            n == if len < 8 {
                len as int
            } else {
                8
            },
            out@ =~= hash@.take(i as int),
        decreases n - i,
    {
        out.push(hash.get_char(i));
        i = i + 1;
    }
    proof {
        assert(out@ =~= truncate8(hash@));
    }
    chars_to_string(&out)
}

/// The text whose digest is the combined verification hash.
pub open spec fn combined_pair_preimage(config: Seq<char>, content: Seq<char>) -> Seq<char> {
    config + seq![':'] + content
}

/// The combined verification hash, as a function of the two hashes alone.
pub open spec fn combined_verification_hash_of(config: Seq<char>, content: Seq<char>) -> Seq<
    char,
> {
    blake3_hex_of(combined_pair_preimage(config, content))
}

/// Hash a configuration hash and a content hash into the combined
/// verification hash carried by trailers.
pub fn compute_combined_hash(config_hash: &str, content_hash: &str) -> (r: String)
    ensures
        r@ == combined_verification_hash_of(config_hash@, content_hash@),
        r@.len() == 64,
{
    let mut preimage = String::new();
    preimage.append(config_hash);
    preimage.append(":");
    preimage.append(content_hash);
    proof {
        reveal_strlit(":");
        assert(preimage@ =~= combined_pair_preimage(config_hash@, content_hash@));
    }
    blake3_hex(preimage.as_str())
}

/// The same hashes give the same trailer value: the combined hash and its
/// truncation are functions of their inputs alone.
pub proof fn lemma_trailer_value_deterministic(
    c1: Seq<char>,
    x1: Seq<char>,
    c2: Seq<char>,
    x2: Seq<char>,
)
    requires
        c1 == c2,
        x1 == x2,
    ensures
        truncate8(combined_verification_hash_of(c1, x1)) == truncate8(
            combined_verification_hash_of(c2, x2),
        ),
{
}

/// Whether a character counts as whitespace for trimming: the Unicode
/// `White_Space` set, which is exactly what `char::is_whitespace`
/// answers.
pub open spec fn is_ws(c: char) -> bool {
    ||| c == ' '
    ||| c == '\t'
    ||| c == '\n'
    ||| c == '\u{000B}'
    ||| c == '\u{000C}'
    ||| c == '\r'
    ||| c == '\u{0085}'
    ||| c == '\u{00A0}'
    ||| c == '\u{1680}'
    ||| ('\u{2000}' <= c && c <= '\u{200A}')
    ||| c == '\u{2028}'
    ||| c == '\u{2029}'
    ||| c == '\u{202F}'
    ||| c == '\u{205F}'
    ||| c == '\u{3000}'
}

/// Whether the character has the Unicode whitespace property.
fn char_is_ws(c: char) -> (r: bool)
    ensures
        r == is_ws(c),
{
    c == ' ' || c == '\t' || c == '\n' || c == '\u{000B}' || c == '\u{000C}' || c == '\r'
        || c == '\u{0085}' || c == '\u{00A0}' || c == '\u{1680}' || ('\u{2000}' <= c && c
        <= '\u{200A}') || c == '\u{2028}' || c == '\u{2029}' || c == '\u{202F}' || c
        == '\u{205F}' || c == '\u{3000}'
}

/// The position of the first comma, or the length when there is none.
pub open spec fn first_comma(s: Seq<char>) -> int
    decreases s.len(),
{
    if s.len() == 0 {
        0
    } else if s[0] == ',' {
        0
    } else {
        1 + first_comma(s.drop_first())
    }
}

/// The position of the first colon, or the length when there is none.
pub open spec fn first_colon(s: Seq<char>) -> int
    decreases s.len(),
{
    if s.len() == 0 {
        0
    } else if s[0] == ':' {
        0
    } else {
        1 + first_colon(s.drop_first())
    }
}

/// The first comma is in range, is a comma, and nothing before it is.
pub proof fn lemma_first_comma(s: Seq<char>)
    ensures
        0 <= first_comma(s) <= s.len(),
        first_comma(s) < s.len() ==> s[first_comma(s)] == ',',
        forall|j: int| 0 <= j < first_comma(s) ==> s[j] != ',',
    decreases s.len(),
{
    if s.len() > 0 && s[0] != ',' {
        lemma_first_comma(s.drop_first());
        assert forall|j: int| 0 <= j < first_comma(s) implies s[j] != ',' by {
            if j > 0 {
                assert(s.drop_first()[j - 1] == s[j]);
            }
        }
        if first_comma(s) < s.len() {
            assert(s.drop_first()[first_comma(s) - 1] == s[first_comma(s)]);
        }
    }
}

/// The first colon is in range, is a colon, and nothing before it is.
pub proof fn lemma_first_colon(s: Seq<char>)
    ensures
        0 <= first_colon(s) <= s.len(),
        first_colon(s) < s.len() ==> s[first_colon(s)] == ':',
        forall|j: int| 0 <= j < first_colon(s) ==> s[j] != ':',
    decreases s.len(),
{
    if s.len() > 0 && s[0] != ':' {
        lemma_first_colon(s.drop_first());
        assert forall|j: int| 0 <= j < first_colon(s) implies s[j] != ':' by {
            if j > 0 {
                assert(s.drop_first()[j - 1] == s[j]);
            }
        }
        if first_colon(s) < s.len() {
            assert(s.drop_first()[first_colon(s) - 1] == s[first_colon(s)]);
        }
    }
}

/// The text without leading whitespace.
pub open spec fn trim_front(s: Seq<char>) -> Seq<char>
    decreases s.len(),
{
    if s.len() > 0 && is_ws(s[0]) {
        trim_front(s.drop_first())
    } else {
        s
    }
}

/// The text without trailing whitespace.
pub open spec fn trim_back(s: Seq<char>) -> Seq<char>
    decreases s.len(),
{
    if s.len() > 0 && is_ws(s.last()) {
        trim_back(s.drop_last())
    } else {
        s
    }
}

/// The text without leading or trailing whitespace.
pub open spec fn trim_spec(s: Seq<char>) -> Seq<char> {
    trim_back(trim_front(s))
}

/// The name-to-hash pair one trailer segment denotes: the trimmed text
/// split at its first colon, or nothing without a colon.
pub open spec fn pair_of(seg: Seq<char>) -> Option<(Seq<char>, Seq<char>)> {
    let t = trim_spec(seg);
    if first_colon(t) < t.len() {
        Some((t.take(first_colon(t)), t.skip(first_colon(t) + 1)))
    } else {
        None
    }
}

/// The pairs a trailer value denotes, segment by segment between commas.
pub open spec fn pairs_of(s: Seq<char>) -> Seq<(Seq<char>, Seq<char>)>
    decreases s.len(),
{
    let k = first_comma(s);
    if 0 <= k < s.len() {
        (match pair_of(s.take(k)) {
            Some(p) => seq![p],
            None => Seq::empty(),
        }) + pairs_of(s.skip(k + 1))
    } else {
        match pair_of(s) {
            Some(p) => seq![p],
            None => Seq::empty(),
        }
    }
}

/// The map a trailer value denotes.
pub open spec fn trailer_map_of(s: Seq<char>) -> Map<Seq<char>, Seq<char>> {
    last_wins_map(pairs_of(s))
}

/// Find the first comma at or after a position.
fn scan_comma(chars: &Vec<char>, from: usize) -> (r: usize)
    requires
        from <= chars@.len(),
    ensures
        from <= r <= chars@.len(),
        r - from == first_comma(chars@.skip(from as int)),
{
    let n = chars.len();
    let mut i: usize = from;
    while i < n && chars[i] != ','
        invariant
            from <= i <= n,
            n == chars@.len(),
            first_comma(chars@.skip(from as int)) == i - from + first_comma(chars@.skip(i as int)),
        decreases n - i,
    {
        proof {
            assert(chars@.skip(i as int)[0] == chars@[i as int]);
            assert(chars@.skip(i as int).drop_first() =~= chars@.skip(i + 1));
        }
        i = i + 1;
    }
    proof {
        if i < n {
            assert(chars@.skip(i as int)[0] == chars@[i as int]);
        } else {
            assert(chars@.skip(i as int).len() == 0);
        }
    }
    i
}

/// The parsed pair of one segment of the character vector.
fn parse_segment(chars: &Vec<char>, lo: usize, hi: usize) -> (r: Option<(String, String)>)
    requires
        lo <= hi <= chars@.len(),
    ensures
        match r {
            Some(p) => pair_of(chars@.subrange(lo as int, hi as int)) == Some((p.0@, p.1@)),
            None => pair_of(chars@.subrange(lo as int, hi as int)) is None,
        },
{
    let ghost seg = chars@.subrange(lo as int, hi as int);
    // Trim both ends.
    let mut a: usize = lo;
    while a < hi && char_is_ws(chars[a])
        invariant
            lo <= a <= hi <= chars@.len(),
            seg == chars@.subrange(lo as int, hi as int),
            trim_front(seg) == trim_front(chars@.subrange(a as int, hi as int)),
        decreases hi - a,
    {
        proof {
            let cur = chars@.subrange(a as int, hi as int);
            assert(cur[0] == chars@[a as int]);
            assert(cur.drop_first() =~= chars@.subrange(a + 1, hi as int));
        }
        a = a + 1;
    }
    proof {
        let cur = chars@.subrange(a as int, hi as int);
        if a < hi {
            assert(cur[0] == chars@[a as int]);
        }
        assert(trim_front(seg) == cur);
    }
    let mut b: usize = hi;
    while b > a && char_is_ws(chars[b - 1])
        invariant
            a <= b <= hi <= chars@.len(),
            trim_front(seg) == chars@.subrange(a as int, hi as int),
            trim_back(chars@.subrange(a as int, hi as int)) == trim_back(
                chars@.subrange(a as int, b as int),
            ),
        decreases b,
    {
        proof {
            let cur = chars@.subrange(a as int, b as int);
            assert(cur.last() == chars@[b - 1]);
            assert(cur.drop_last() =~= chars@.subrange(a as int, b - 1));
        }
        b = b - 1;
    }
    let ghost t = trim_spec(seg);
    proof {
        let cur = chars@.subrange(a as int, b as int);
        if b > a {
            assert(cur.last() == chars@[b - 1]);
        }
        assert(t == cur);
    }
    // Split at the first colon.
    let mut c: usize = a;
    while c < b && chars[c] != ':'
        invariant
            a <= c <= b <= chars@.len(),
            t == chars@.subrange(a as int, b as int),
            first_colon(chars@.subrange(a as int, b as int)) == c - a + first_colon(
                chars@.subrange(c as int, b as int),
            ),
        decreases b - c,
    {
        proof {
            let cur = chars@.subrange(c as int, b as int);
            assert(cur[0] == chars@[c as int]);
            assert(cur.drop_first() =~= chars@.subrange(c + 1, b as int));
        }
        c = c + 1;
    }
    proof {
        let cur = chars@.subrange(c as int, b as int);
        if c < b {
            assert(cur[0] == chars@[c as int]);
        } else {
            assert(cur.len() == 0);
        }
    }
    if c == b {
        proof {
            assert(first_colon(t) == t.len());
        }
        return None;
    }
    proof {
        assert(first_colon(t) == c - a);
    }
    // Collect the name and the value.
    let mut name_chars: Vec<char> = Vec::new();
    let mut i: usize = a;
    while i < c
        invariant
            a <= i <= c <= chars@.len(),
            name_chars@ =~= chars@.subrange(a as int, i as int),
        decreases c - i,
    {
        name_chars.push(chars[i]);
        i = i + 1;
    }
    let mut val_chars: Vec<char> = Vec::new();
    let mut j: usize = c + 1;
    while j < b
        invariant
            c + 1 <= j <= b <= chars@.len(),
            val_chars@ =~= chars@.subrange(c + 1, j as int),
        decreases b - j,
    {
        val_chars.push(chars[j]);
        j = j + 1;
    }
    proof {
        assert(name_chars@ =~= t.take(first_colon(t)));
        assert(val_chars@ =~= t.skip(first_colon(t) + 1));
    }
    let name = chars_to_string(&name_chars);
    let value = chars_to_string(&val_chars);
    Some((name, value))
}

/// What a map still becomes after more pairs land on it, later pairs
/// winning.
pub open spec fn extend_map(
    m: Map<Seq<char>, Seq<char>>,
    pairs: Seq<(Seq<char>, Seq<char>)>,
) -> Map<Seq<char>, Seq<char>>
    decreases pairs.len(),
{
    if pairs.len() == 0 {
        m
    } else {
        extend_map(m.insert(pairs[0].0, pairs[0].1), pairs.drop_first())
    }
}

/// Folding pairs from the left onto the empty map is the last-wins map.
pub proof fn lemma_extend_is_last_wins(m: Map<Seq<char>, Seq<char>>, pairs: Seq<(Seq<char>, Seq<char>)>)
    ensures
        extend_map(m, pairs) == last_wins_map_from(m, pairs),
    decreases pairs.len(),
{
    if pairs.len() > 0 {
        lemma_extend_is_last_wins(m.insert(pairs[0].0, pairs[0].1), pairs.drop_first());
        lemma_last_wins_from_step(m, pairs);
    }
}

/// The last-wins map built over a base map.
pub open spec fn last_wins_map_from(
    m: Map<Seq<char>, Seq<char>>,
    pairs: Seq<(Seq<char>, Seq<char>)>,
) -> Map<Seq<char>, Seq<char>>
    decreases pairs.len(),
{
    if pairs.len() == 0 {
        m
    } else {
        last_wins_map_from(m, pairs.drop_last()).insert(pairs.last().0, pairs.last().1)
    }
}

/// Folding from either end gives the same last-wins map.
proof fn lemma_last_wins_from_step(m: Map<Seq<char>, Seq<char>>, pairs: Seq<(Seq<char>, Seq<char>)>)
    requires
        pairs.len() > 0,
    ensures
        last_wins_map_from(m, pairs) == last_wins_map_from(
            m.insert(pairs[0].0, pairs[0].1),
            pairs.drop_first(),
        ),
    decreases pairs.len(),
{
    if pairs.len() == 1 {
        assert(pairs.drop_last().len() == 0);
        assert(pairs.drop_first().len() == 0);
        assert(pairs.last() == pairs[0]);
        assert(last_wins_map_from(m, pairs) == last_wins_map_from(m, pairs.drop_last()).insert(
            pairs.last().0,
            pairs.last().1,
        ));
        assert(last_wins_map_from(m, pairs.drop_last()) == m);
        assert(last_wins_map_from(m.insert(pairs[0].0, pairs[0].1), pairs.drop_first())
            == m.insert(pairs[0].0, pairs[0].1));
    } else {
        lemma_last_wins_from_step(m, pairs.drop_last());
        assert(pairs.drop_last()[0] == pairs[0]);
        assert(pairs.drop_last().drop_first() =~= pairs.drop_first().drop_last());
        assert(pairs.drop_first().last() == pairs.last());
        assert(last_wins_map_from(m, pairs) == last_wins_map_from(m, pairs.drop_last()).insert(
            pairs.last().0,
            pairs.last().1,
        ));
        assert(last_wins_map_from(m.insert(pairs[0].0, pairs[0].1), pairs.drop_first())
            == last_wins_map_from(
            m.insert(pairs[0].0, pairs[0].1),
            pairs.drop_first().drop_last(),
        ).insert(pairs.drop_first().last().0, pairs.drop_first().last().1));
        assert(last_wins_map_from(m, pairs.drop_last()) == last_wins_map_from(
            m.insert(pairs[0].0, pairs[0].1),
            pairs.drop_last().drop_first(),
        ));
    }
}

/// The last-wins map over the empty base is the plain last-wins map.
pub proof fn lemma_last_wins_from_empty(pairs: Seq<(Seq<char>, Seq<char>)>)
    ensures
        last_wins_map_from(Map::empty(), pairs) == last_wins_map(pairs),
    decreases pairs.len(),
{
    if pairs.len() > 0 {
        lemma_last_wins_from_empty(pairs.drop_last());
    }
}

/// Splitting at the first comma peels off the first segment's pairs.
proof fn lemma_pairs_of_step(s: Seq<char>, k: int)
    requires
        k == first_comma(s),
        k < s.len(),
    ensures
        pairs_of(s) == (match pair_of(s.take(k)) {
            Some(p) => seq![p],
            None => Seq::<(Seq<char>, Seq<char>)>::empty(),
        }) + pairs_of(s.skip(k + 1)),
{
    lemma_first_comma(s);
}

/// Parse a trailer value: a comma-separated list of `name:hash` pairs,
/// each trimmed, later pairs winning.
pub fn parse_trailer_value(value: &str) -> (r: StrMap)
    ensures
        r.wf(),
        r@ == trailer_map_of(value@),
{
    let chars = str_to_chars(value);
    let n = chars.len();
    let mut map = StrMap::new();
    let mut cur: usize = 0;
    proof {
        assert(chars@.skip(0) =~= chars@);
        lemma_extend_is_last_wins(Map::empty(), pairs_of(chars@));
        lemma_last_wins_from_empty(pairs_of(chars@));
    }
    loop
        invariant_except_break
            map.wf(),
            cur <= n,
            n == chars@.len(),
            chars@ == value@,
            extend_map(map@, pairs_of(chars@.skip(cur as int))) == trailer_map_of(value@),
        ensures
            map.wf(),
            map@ == trailer_map_of(value@),
        decreases n - cur + 1,
    {
        let k = scan_comma(&chars, cur);
        let ghost rest = chars@.skip(cur as int);
        proof {
            lemma_first_comma(rest);
        }
        let seg = parse_segment(&chars, cur, k);
        proof {
            assert(chars@.subrange(cur as int, k as int) =~= rest.take(k - cur));
        }
        if k == n {
            // The last segment.
            proof {
                assert(rest.take(k - cur) =~= rest);
                assert(first_comma(rest) == rest.len());
            }
            match seg {
                Some(p) => {
                    let ghost pre = map@;
                    proof {
                        assert(pairs_of(rest) =~= seq![(p.0@, p.1@)]);
                        assert(pairs_of(rest).drop_first() =~= Seq::<(
                            Seq<char>,
                            Seq<char>,
                        )>::empty());
                        assert(extend_map(pre, pairs_of(rest)) == extend_map(
                            pre.insert(p.0@, p.1@),
                            pairs_of(rest).drop_first(),
                        ));
                        assert(extend_map(pre, pairs_of(rest)) == pre.insert(p.0@, p.1@));
                    }
                    map.insert(p.0, p.1);
                },
                None => {
                    proof {
                        assert(pairs_of(rest) =~= Seq::<(Seq<char>, Seq<char>)>::empty());
                        assert(extend_map(map@, pairs_of(rest)) == map@);
                    }
                },
            }
            break ;
        }
        proof {
            assert(first_comma(rest) == k - cur);
            lemma_pairs_of_step(rest, k - cur);
            assert(rest.skip(k - cur + 1) =~= chars@.skip(k + 1));
        }
        match seg {
            Some(p) => {
                let ghost pre = map@;
                proof {
                    let pr = pairs_of(rest);
                    assert(pr[0] == (p.0@, p.1@));
                    assert(pr.drop_first() =~= pairs_of(chars@.skip(k + 1)));
                    assert(extend_map(pre, pr) == extend_map(
                        pre.insert(p.0@, p.1@),
                        pairs_of(chars@.skip(k + 1)),
                    ));
                }
                map.insert(p.0, p.1);
            },
            None => {
                proof {
                    assert(pairs_of(rest) =~= pairs_of(chars@.skip(k + 1)));
                }
            },
        }
        cur = k + 1;
    }
    map
}

/// The text of one trailer pair: the name, a colon, the truncated hash.
pub open spec fn pair_text(name: Seq<char>, hash: Seq<char>) -> Seq<char> {
    name + seq![':'] + truncate8(hash)
}

/// The trailer text of a sorted entry list, pairs joined by commas.
pub open spec fn trailer_text_of(entries: Seq<(Seq<char>, Seq<char>)>) -> Seq<char>
    decreases entries.len(),
{
    if entries.len() == 0 {
        Seq::empty()
    } else if entries.len() == 1 {
        pair_text(entries[0].0, entries[0].1)
    } else {
        pair_text(entries[0].0, entries[0].1) + seq![','] + trailer_text_of(entries.drop_first())
    }
}

/// Appending an entry appends its pair text after a comma.
proof fn lemma_trailer_text_push(entries: Seq<(Seq<char>, Seq<char>)>, e: (Seq<char>, Seq<char>))
    ensures
        trailer_text_of(entries.push(e)) == (if entries.len() == 0 {
            pair_text(e.0, e.1)
        } else {
            trailer_text_of(entries) + seq![','] + pair_text(e.0, e.1)
        }),
    decreases entries.len(),
{
    let p = entries.push(e);
    if entries.len() == 0 {
        assert(p.len() == 1);
        assert(p[0] == e);
    } else {
        assert(p[0] == entries[0]);
        assert(p.drop_first() =~= entries.drop_first().push(e));
        lemma_trailer_text_push(entries.drop_first(), e);
        if entries.len() == 1 {
            assert(entries.drop_first().len() == 0);
            assert(trailer_text_of(p) == pair_text(p[0].0, p[0].1) + seq![','] + trailer_text_of(
                p.drop_first(),
            ));
        }
    }
}

/// Format a map as a trailer value: `name:hash` pairs joined by commas,
/// names in sorted order, hashes truncated.
pub fn format_trailer_value(hashes: &StrMap) -> (r: String)
    requires
        hashes.wf(),
    ensures
        r@ == trailer_text_of(hashes.entries_view()),
{
    let ghost entries = hashes.entries_view();
    let mut out = String::new();
    let n = hashes.len();
    let mut i: usize = 0;
    proof {
        assert(entries.take(0) =~= Seq::<(Seq<char>, Seq<char>)>::empty());
    }
    while i < n
        invariant
            hashes.wf(),
            entries == hashes.entries_view(),
            i <= n,
            n == entries.len(),
            out@ == trailer_text_of(entries.take(i as int)),
        decreases n - i,
    {
        proof {
            reveal_strlit(":");
            reveal_strlit(",");
        }
        if i > 0 {
            out.append(",");
        }
        out.append(hashes.key_at(i).as_str());
        out.append(":");
        let truncated = truncate_hash(hashes.val_at(i).as_str());
        out.append(truncated.as_str());
        proof {
            assert(entries.take(i + 1).drop_last() =~= entries.take(i as int));
            assert(entries.take(i + 1) =~= entries.take(i as int).push(entries[i as int]));
            lemma_trailer_text_push(entries.take(i as int), entries[i as int]);
            assert(out@ =~= trailer_text_of(entries.take(i + 1)));
        }
        i = i + 1;
    }
    proof {
        assert(entries.take(n as int) =~= entries);
    }
    out
}


/// Why a trailer walk fails.
#[derive(Debug)]
pub enum TrailerError {
    /// The dependency graph has a cycle.
    Cycle { name: String },
    /// A check's files could not be hashed.
    Hashing { error: HashError },
}

impl TrailerError {
    /// A human-readable description.
    pub fn message(&self) -> String {
        match self {
            TrailerError::Cycle { name } => {
                let mut m = String::new();
                m.append("Circular dependency detected involving: ");
                m.append(name.as_str());
                m
            },
            TrailerError::Hashing { error } => error.message(),
        }
    }
}

/// Compute the expected combined verification hash of one check from the
/// working tree.
pub fn compute_expected_hash(project_root: &str, check: &Verification) -> (r: Result<
    String,
    HashError,
>)
    ensures
        r matches Ok(h) ==> h@.len() == 64 && exists|content: Seq<char>|
            h@ == combined_verification_hash_of(config_hash_of(*check), content),
{
    let config_hash = check.config_hash();
    match compute_check_hash(project_root, &check.cache_paths) {
        Err(e) => Err(e),
        Ok(hash_result) => {
            let combined = compute_combined_hash(
                config_hash.as_str(),
                hash_result.combined_hash.as_str(),
            );
            proof {
                let content = hash_result.combined_hash@;
                assert(combined@ == combined_verification_hash_of(
                    config_hash_of(*check),
                    content,
                ));
            }
            Ok(combined)
        },
    }
}

/// Either no tracked check carries the name, or the map carries it: the
/// walks below leave no tracked check out.
pub open spec fn tracked_name_covered(
    config: Config,
    m: Map<Seq<char>, Seq<char>>,
    name: Seq<char>,
) -> bool {
    (exists|i: int|
        0 <= i < config.verifications@.len() && ((#[trigger] config.verifications@[i])
            matches VerificationItem::Verification(c) && c.name@ == name && c.command is Some
            && c.cache_paths@.len() > 0)) ==> m.contains_key(name)
}

/// Whether a name belongs to a non-aggregate tracked check of the
/// configuration, paired with a combined hash computed from its
/// configuration hash.
pub open spec fn names_tracked_check_hash(config: Config, name: Seq<char>, v: Seq<char>) -> bool {
    exists|i: int|
        #![trigger config.verifications@[i]]
        0 <= i < config.verifications@.len() && (config.verifications@[i]
            matches VerificationItem::Verification(c) && c.name@ == name && c.command is Some
            && c.cache_paths@.len() > 0 && exists|content: Seq<char>|
            v == combined_verification_hash_of(config_hash_of(c), content))
}

/// Compute the expected combined hashes of every non-aggregate tracked
/// check, from the working tree alone, in dependency order.
pub fn compute_all_expected_hashes(project_root: &str, config: &Config) -> (r: Result<
    StrMap,
    TrailerError,
>)
    ensures
        r matches Ok(m) ==> m.wf() && (forall|x: Seq<char>|
            #[trigger] m@.contains_key(x) ==> names_tracked_check_hash(*config, x, m@[x]))
            && (crate::config::names_unique(*config) ==> forall|name: Seq<char>| #[trigger]
            tracked_name_covered(*config, m@, name)),
        r matches Err(TrailerError::Cycle { name }) ==> crate::graph::blocked_set_with(
            crate::config::verifications_of(*config),
            name@,
        ),
{
    let graph = match DependencyGraph::from_config(config) {
        Ok(g) => g,
        Err(crate::graph::GraphError::Cycle { name }) => {
            return Err(TrailerError::Cycle { name });
        },
    };
    let waves = graph.execution_waves();
    let mut out = StrMap::new();
    let tn = waves.len();
    let mut t: usize = 0;
    while t < tn
        invariant
            graph.wf(),
            graph.waves_ok(),
            graph.waves_complete(),
            crate::hasher::views_of(graph.names@) == crate::config::verifications_of(
                *config,
            ).map_values(|v: Verification| v.name@),
            waves@.len() == graph.waves@.len(),
            forall|u: int| 0 <= u < waves@.len() ==> (#[trigger] waves@[u]@.len())
                == graph.waves@[u]@.len(),
            forall|u: int, q: int|
                0 <= u < waves@.len() && 0 <= q < waves@[u]@.len() ==> (#[trigger] waves@[u]@[q])@
                    == graph.names@[graph.waves@[u]@[q] as int]@,
            out.wf(),
            tn == waves@.len(),
            t <= tn,
            forall|x: Seq<char>|
                #[trigger] out@.contains_key(x) ==> names_tracked_check_hash(*config, x, out@[x]),
            crate::config::names_unique(*config) ==> forall|u: int, q: int|
                0 <= u < t && 0 <= q < graph.waves@[u]@.len() ==> tracked_name_covered(
                    *config,
                    out@,
                    graph.names@[(#[trigger] graph.waves@[u]@[q]) as int]@,
                ),
        decreases tn - t,
    {
        let wl = waves[t].len();
        let mut p: usize = 0;
        while p < wl
            invariant
                graph.wf(),
                graph.waves_ok(),
                crate::hasher::views_of(graph.names@) == crate::config::verifications_of(
                    *config,
                ).map_values(|v: Verification| v.name@),
                waves@.len() == graph.waves@.len(),
                forall|u: int| 0 <= u < waves@.len() ==> (#[trigger] waves@[u]@.len())
                    == graph.waves@[u]@.len(),
                forall|u: int, q: int|
                    0 <= u < waves@.len() && 0 <= q < waves@[u]@.len() ==> (
                    #[trigger] waves@[u]@[q])@ == graph.names@[graph.waves@[u]@[q] as int]@,
                out.wf(),
                tn == waves@.len(),
                t < tn,
                wl == waves@[t as int]@.len(),
                p <= wl,
                forall|x: Seq<char>|
                    #[trigger] out@.contains_key(x) ==> names_tracked_check_hash(
                        *config,
                        x,
                        out@[x],
                    ),
                crate::config::names_unique(*config) ==> forall|u: int, q: int|
                    0 <= u < waves@.len() && 0 <= q < graph.waves@[u]@.len() && (u < t || (u == t
                        && q < p)) ==> tracked_name_covered(
                        *config,
                        out@,
                        graph.names@[(#[trigger] graph.waves@[u]@[q]) as int]@,
                    ),
            decreases wl - p,
        {
            let name = &waves[t][p];
            let ghost before = out@;
            match config.get(name.as_str()) {
                None => {
                    proof {
                        if crate::config::names_unique(*config) {
                            assert(tracked_name_covered(*config, out@, name@)) by {
                                if exists|i: int|
                                    0 <= i < config.verifications@.len() && ((
                                    #[trigger] config.verifications@[i])
                                        matches VerificationItem::Verification(c) && c.name@
                                        == name@ && c.command is Some && c.cache_paths@.len()
                                        > 0) {
                                    let i = choose|i: int|
                                        0 <= i < config.verifications@.len() && ((
                                        #[trigger] config.verifications@[i])
                                            matches VerificationItem::Verification(c) && c.name@
                                            == name@ && c.command is Some && c.cache_paths@.len()
                                            > 0);
                                    assert(config.verifications@[i] is Verification);
                                    assert(config.verifications@[i]->Verification_0.name@
                                        != name@);
                                    assert(false);
                                }
                            }
                        }
                    }
                },
                Some(check) => {
                    if check.command.is_some() && check.cache_paths.len() > 0 {
                        match compute_expected_hash(project_root, check) {
                            Err(e) => {
                                return Err(TrailerError::Hashing { error: e });
                            },
                            Ok(h) => {
                                proof {
                                    let i = choose|i: int|
                                        0 <= i < config.verifications@.len()
                                            && #[trigger] config.verifications@[i]
                                            == VerificationItem::Verification(*check);
                                    let content = choose|content: Seq<char>|
                                        h@ == combined_verification_hash_of(
                                            config_hash_of(*check),
                                            content,
                                        );
                                    assert(names_tracked_check_hash(*config, check.name@, h@));
                                }
                                out.insert(name.clone(), h);
                                proof {
                                    assert forall|x: Seq<char>|
                                        #[trigger] out@.contains_key(x) implies names_tracked_check_hash(
                                        *config,
                                        x,
                                        out@[x],
                                    ) by {
                                        if x != name@ {
                                            assert(before.contains_key(x) && out@[x] == before[x]);
                                        }
                                    }
                                }
                            },
                        }
                    } else {
                        proof {
                            if crate::config::names_unique(*config) {
                                assert(tracked_name_covered(*config, out@, name@)) by {
                                    if exists|i: int|
                                        0 <= i < config.verifications@.len() && ((
                                        #[trigger] config.verifications@[i])
                                            matches VerificationItem::Verification(c) && c.name@
                                            == name@ && c.command is Some && c.cache_paths@.len()
                                            > 0) {
                                        let i = choose|i: int|
                                            0 <= i < config.verifications@.len() && ((
                                            #[trigger] config.verifications@[i])
                                                matches VerificationItem::Verification(c)
                                                && c.name@ == name@ && c.command is Some
                                                && c.cache_paths@.len() > 0);
                                        let j = choose|j: int|
                                            0 <= j < config.verifications@.len()
                                                && #[trigger] config.verifications@[j]
                                                == VerificationItem::Verification(*check);
                                        crate::config::lemma_unique_name_same_check(
                                            *config,
                                            i,
                                            j,
                                        );
                                        assert(false);
                                    }
                                }
                            }
                        }
                    }
                },
            }
            proof {
                // The freshly processed position is covered, and growth of
                // the map keeps every earlier position covered.
                if crate::config::names_unique(*config) {
                    assert forall|u: int, q: int|
                        0 <= u < waves@.len() && 0 <= q < graph.waves@[u]@.len() && (u < t || (u
                            == t && q < p + 1)) implies tracked_name_covered(
                        *config,
                        out@,
                        graph.names@[(#[trigger] graph.waves@[u]@[q]) as int]@,
                    ) by {
                        let nm = graph.names@[graph.waves@[u]@[q] as int]@;
                        if u == t && q == p {
                            assert(nm == name@);
                        } else {
                            assert(tracked_name_covered(*config, before, nm));
                            if before.contains_key(nm) {
                                assert(out@.contains_key(nm));
                            }
                        }
                    }
                }
            }
            p = p + 1;
        }
        t = t + 1;
    }
    proof {
        if crate::config::names_unique(*config) {
            assert forall|name: Seq<char>| #[trigger]
                tracked_name_covered(*config, out@, name) by {
                if exists|i: int|
                    0 <= i < config.verifications@.len() && ((#[trigger] config.verifications@[i])
                        matches VerificationItem::Verification(c) && c.name@ == name
                        && c.command is Some && c.cache_paths@.len() > 0) {
                    let i = choose|i: int|
                        0 <= i < config.verifications@.len() && ((
                        #[trigger] config.verifications@[i])
                            matches VerificationItem::Verification(c) && c.name@ == name
                            && c.command is Some && c.cache_paths@.len() > 0);
                    crate::config::lemma_verification_listed(*config, i);
                    let j = choose|j: int|
                        0 <= j < crate::config::verifications_of(*config).len()
                            && #[trigger] crate::config::verifications_of(*config)[j]
                            == config.verifications@[i]->Verification_0;
                    assert(crate::hasher::views_of(graph.names@).len() == graph.names@.len());
                    assert(crate::config::verifications_of(*config).map_values(
                        |v: Verification| v.name@,
                    ).len() == crate::config::verifications_of(*config).len());
                    assert(0 <= j < graph.names@.len());
                    assert(crate::hasher::views_of(graph.names@)[j] == graph.names@[j]@);
                    assert(crate::config::verifications_of(*config).map_values(
                        |v: Verification| v.name@,
                    )[j] == crate::config::verifications_of(*config)[j].name@);
                    assert(graph.names@[j]@ == name);
                    assert(crate::graph::in_waves(graph.waves@, j));
                    let (u, q) = choose|u: int, q: int|
                        0 <= u < graph.waves@.len() && 0 <= q < graph.waves@[u]@.len() && (
                        #[trigger] graph.waves@[u]@[q]) == j;
                    assert(tracked_name_covered(*config, out@, graph.names@[j]@));
                }
            }
        }
    }
    Ok(out)
}

/// Like the expected walk, but consulting the lock store: a check's hash
/// is emitted only when its recorded success still matches the working
/// tree under the current configuration.
pub open spec fn names_verified_check_hash(
    config: Config,
    cache: Seq<(String, crate::cache::CheckCache)>,
    name: Seq<char>,
    v: Seq<char>,
) -> bool {
    exists|i: int|
        #![trigger config.verifications@[i]]
        0 <= i < config.verifications@.len() && (config.verifications@[i]
            matches VerificationItem::Verification(c) && c.name@ == name && c.command is Some
            && c.cache_paths@.len() > 0 && exists|content: Seq<char>|
            crate::cache::verified_in_cache(cache, name, content, config_hash_of(c)) && v
                == combined_verification_hash_of(config_hash_of(c), content))
}

/// Decide and record one check's trailer hash: the hash is emitted into
/// the map exactly when the lock store holds a verified entry matching the
/// given configuration hash and the computed content hash, and then the
/// map gains that one binding, the combined hash under the check's name;
/// otherwise nothing moves.
pub fn emit_check_hash(
    out: &mut StrMap,
    check: &Verification,
    cache: &CacheState,
    config_hash: &String,
    hash_result: &crate::hasher::HashResult,
) -> (emitted: bool)
    requires
        old(out).wf(),
        cache.wf(),
        config_hash@ == config_hash_of(*check),
    ensures
        final(out).wf(),
        emitted == crate::cache::verified_in_cache(
            cache.checks@,
            check.name@,
            hash_result.combined_hash@,
            config_hash_of(*check),
        ),
        emitted ==> final(out)@ == old(out)@.insert(
            check.name@,
            combined_verification_hash_of(config_hash_of(*check), hash_result.combined_hash@),
        ),
        !emitted ==> final(out)@ == old(out)@,
{
    let status = cache.check_staleness(
        check.name.as_str(),
        hash_result.combined_hash.as_str(),
        config_hash.as_str(),
    );
    match status {
        VerificationStatus::Verified => {
            let combined = compute_combined_hash(
                config_hash.as_str(),
                hash_result.combined_hash.as_str(),
            );
            out.insert(check.name.clone(), combined);
            true
        },
        _ => false,
    }
}

/// Compute the combined hashes of every currently verified non-aggregate
/// tracked check, in dependency order; stale checks are left out.
pub fn compute_all_hashes(project_root: &str, config: &Config, cache: &CacheState) -> (r: Result<
    StrMap,
    TrailerError,
>)
    requires
        cache.wf(),
    ensures
        r matches Ok(m) ==> m.wf() && forall|x: Seq<char>|
            #[trigger] m@.contains_key(x) ==> names_verified_check_hash(
                *config,
                cache.checks@,
                x,
                m@[x],
            ),
        r matches Err(TrailerError::Cycle { name }) ==> crate::graph::blocked_set_with(
            crate::config::verifications_of(*config),
            name@,
        ),
{
    let graph = match DependencyGraph::from_config(config) {
        Ok(g) => g,
        Err(crate::graph::GraphError::Cycle { name }) => {
            return Err(TrailerError::Cycle { name });
        },
    };
    let waves = graph.execution_waves();
    let mut out = StrMap::new();
    let tn = waves.len();
    let mut t: usize = 0;
    while t < tn
        invariant
            cache.wf(),
            out.wf(),
            tn == waves@.len(),
            t <= tn,
            forall|x: Seq<char>|
                #[trigger] out@.contains_key(x) ==> names_verified_check_hash(
                    *config,
                    cache.checks@,
                    x,
                    out@[x],
                ),
        decreases tn - t,
    {
        let wl = waves[t].len();
        let mut p: usize = 0;
        while p < wl
            invariant
                cache.wf(),
                out.wf(),
                tn == waves@.len(),
                t < tn,
                wl == waves@[t as int]@.len(),
                p <= wl,
                forall|x: Seq<char>|
                    #[trigger] out@.contains_key(x) ==> names_verified_check_hash(
                        *config,
                        cache.checks@,
                        x,
                        out@[x],
                    ),
            decreases wl - p,
        {
            let name = &waves[t][p];
            match config.get(name.as_str()) {
                None => (),
                Some(check) => {
                    if check.command.is_some() && check.cache_paths.len() > 0 {
                        let current_config_hash = check.config_hash();
                        match compute_check_hash(project_root, &check.cache_paths) {
                            Err(e) => {
                                return Err(TrailerError::Hashing { error: e });
                            },
                            Ok(hash_result) => {
                                let ghost before = out@;
                                let emitted = emit_check_hash(
                                    &mut out,
                                    check,
                                    cache,
                                    &current_config_hash,
                                    &hash_result,
                                );
                                proof {
                                    if emitted {
                                        let i = choose|i: int|
                                            0 <= i < config.verifications@.len()
                                                && #[trigger] config.verifications@[i]
                                                == VerificationItem::Verification(*check);
                                        assert(names_verified_check_hash(
                                            *config,
                                            cache.checks@,
                                            check.name@,
                                            combined_verification_hash_of(
                                                config_hash_of(*check),
                                                hash_result.combined_hash@,
                                            ),
                                        ));
                                        assert forall|x: Seq<char>|
                                            #[trigger] out@.contains_key(x) implies names_verified_check_hash(
                                            *config,
                                            cache.checks@,
                                            x,
                                            out@[x],
                                        ) by {
                                            if x != name@ {
                                                assert(before.contains_key(x) && out@[x]
                                                    == before[x]);
                                            }
                                        }
                                    }
                                }
                            },
                        }
                    }
                },
            }
            p = p + 1;
        }
        t = t + 1;
    }
    Ok(out)
}

/// Either no check carries the name, or the validation walk reported it:
/// aggregates and tracked checks all appear; only untracked checks are
/// left out.
pub open spec fn checked_name_covered(
    config: Config,
    items: Seq<(String, VerificationStatus)>,
    name: Seq<char>,
) -> bool {
    (exists|i: int|
        0 <= i < config.verifications@.len() && ((#[trigger] config.verifications@[i])
            matches VerificationItem::Verification(c) && c.name@ == name && (c.command is None
            || c.cache_paths@.len() > 0))) ==> exists|k: int|
        0 <= k < items.len() && (#[trigger] items[k]).0@ == name
}

/// Compare one expected hash against the trailer: verified exactly when
/// the trailer carries the truncated expected hash under the check's
/// name.
pub fn trailer_entry_verified(expected: &str, trailer_value: Option<&String>) -> (r: bool)
    ensures
        r == (trailer_value matches Some(v) && v@ == truncate8(expected@)),
{
    let truncated = truncate_hash(expected);
    match trailer_value {
        None => false,
        Some(v) => crate::text::str_eq(v.as_str(), truncated.as_str()),
    }
}

/// Whether some item before position `k` reports the name verified.
pub open spec fn item_reports_verified(
    items: Seq<(String, VerificationStatus)>,
    k: int,
    name: Seq<char>,
) -> bool {
    exists|k2: int|
        0 <= k2 < k && (#[trigger] items[k2]).0@ == name && items[k2].1 is Verified
}

/// Whether every listed dependency is reported verified before position
/// `k`, taken name by name.
pub open spec fn deps_reported_verified(
    deps: Seq<String>,
    items: Seq<(String, VerificationStatus)>,
    k: int,
) -> bool
    decreases deps.len(),
{
    if deps.len() == 0 {
        true
    } else {
        deps_reported_verified(deps.drop_last(), items, k) && item_reports_verified(
            items,
            k,
            deps.last()@,
        )
    }
}

/// Whether every dependency of an aggregate resolved verified among the
/// items reported before position `k`.
pub open spec fn aggregate_deps_verified(
    c: Verification,
    items: Seq<(String, VerificationStatus)>,
    k: int,
) -> bool {
    deps_reported_verified(c.depends_on@, items, k)
}

/// Dependency reports are stable under appending items.
proof fn lemma_deps_reported_stable(
    deps: Seq<String>,
    s1: Seq<(String, VerificationStatus)>,
    s2: Seq<(String, VerificationStatus)>,
    k: int,
)
    requires
        0 <= k <= s1.len(),
        s1.len() <= s2.len(),
        forall|j: int| 0 <= j < s1.len() ==> #[trigger] s2[j] == s1[j],
    ensures
        deps_reported_verified(deps, s1, k) == deps_reported_verified(deps, s2, k),
    decreases deps.len(),
{
    if deps.len() > 0 {
        lemma_deps_reported_stable(deps.drop_last(), s1, s2, k);
        assert(item_reports_verified(s1, k, deps.last()@) == item_reports_verified(
            s2,
            k,
            deps.last()@,
        )) by {
            if item_reports_verified(s1, k, deps.last()@) {
                let k2 = choose|k2: int|
                    0 <= k2 < k && (#[trigger] s1[k2]).0@ == deps.last()@ && s1[k2].1 is Verified;
                assert(s2[k2] == s1[k2]);
            }
            if item_reports_verified(s2, k, deps.last()@) {
                let k2 = choose|k2: int|
                    0 <= k2 < k && (#[trigger] s2[k2]).0@ == deps.last()@ && s2[k2].1 is Verified;
                assert(s1[k2] == s2[k2]);
            }
        }
    }
}

/// What one reported item's status must be.  An aggregate is verified
/// exactly when every dependency's earlier item is; a tracked check is
/// verified exactly when the trailer carries the truncated form of its
/// expected hash, reads never-run when the trailer lacks its name (or
/// there is no trailer at all), and reads changed when the trailer's
/// value mismatches.
/// What a tracked check's reported status must be, for the expected
/// hash `ev`: verified exactly when the trailer carries `truncate8(ev)`
/// under the name; never-run without a trailer or without the name;
/// changed on a mismatch.
pub open spec fn tracked_status_matches(
    config: Config,
    trailer: Option<&StrMap>,
    name: Seq<char>,
    st: VerificationStatus,
    ev: Seq<char>,
) -> bool {
    names_tracked_check_hash(config, name, ev) && ((st is Verified) == ((trailer matches Some(m)
        && m@.contains_key(name) && m@[name] == truncate8(ev)))) && (trailer is None ==> (st
        matches VerificationStatus::Unverified {
        reason: crate::cache::UnverifiedReason::NeverRun,
    })) && (((trailer matches Some(m) && !m@.contains_key(name))) ==> (st
        matches VerificationStatus::Unverified {
        reason: crate::cache::UnverifiedReason::NeverRun,
    })) && (((trailer matches Some(m) && m@.contains_key(name) && m@[name] != truncate8(ev)))
        ==> (st matches VerificationStatus::Unverified {
        reason: crate::cache::UnverifiedReason::FilesChanged { .. },
    }))
}

pub open spec fn trailer_item_body(
    config: Config,
    trailer: Option<&StrMap>,
    items: Seq<(String, VerificationStatus)>,
    k: int,
    i: int,
) -> bool {
    0 <= i < config.verifications@.len() && (config.verifications@[i]
        matches VerificationItem::Verification(c) && c.name@ == items[k].0@ && (
    if c.command is None {
        ((items[k].1 is Verified) == aggregate_deps_verified(c, items, k)) && (!(items[k].1 is
            Verified) ==> (items[k].1 matches VerificationStatus::Unverified {
            reason: crate::cache::UnverifiedReason::DependencyUnverified { .. },
        }))
    } else if c.cache_paths@.len() > 0 {
        exists|ev: Seq<char>| #[trigger]
            tracked_status_matches(config, trailer, c.name@, items[k].1, ev)
    } else {
        false
    }))
}

/// See `trailer_item_body`: some configuration item justifies the
/// reported status.
pub open spec fn trailer_item_ok(
    config: Config,
    trailer: Option<&StrMap>,
    items: Seq<(String, VerificationStatus)>,
    k: int,
) -> bool {
    exists|i: int| #[trigger] trailer_item_body(config, trailer, items, k, i)
}

/// A reported item keeps its clause when later items are appended.
proof fn lemma_item_ok_stable(
    config: Config,
    trailer: Option<&StrMap>,
    s1: Seq<(String, VerificationStatus)>,
    s2: Seq<(String, VerificationStatus)>,
    k: int,
)
    requires
        0 <= k < s1.len(),
        s1.len() <= s2.len(),
        forall|j: int| 0 <= j < s1.len() ==> #[trigger] s2[j] == s1[j],
        trailer_item_ok(config, trailer, s1, k),
    ensures
        trailer_item_ok(config, trailer, s2, k),
{
    let i = choose|i: int| #[trigger] trailer_item_body(config, trailer, s1, k, i);
    assert(trailer_item_body(config, trailer, s1, k, i));
    assert(s2[k] == s1[k]);
    match config.verifications@[i] {
        VerificationItem::Verification(c) => {
            assert(c.name@ == s2[k].0@);
            if c.command is None {
                lemma_deps_reported_stable(c.depends_on@, s1, s2, k);
                assert((s2[k].1 is Verified) == aggregate_deps_verified(c, s2, k));
            } else if c.cache_paths@.len() > 0 {
                let ev = choose|ev: Seq<char>| #[trigger]
                    tracked_status_matches(config, trailer, c.name@, s1[k].1, ev);
                assert(tracked_status_matches(config, trailer, c.name@, s2[k].1, ev));
            } else {
                assert(false);
            }
        },
        VerificationItem::Subproject(_) => {
            assert(false);
        },
    }
    assert(trailer_item_body(config, trailer, s2, k, i));
    assert(trailer_item_ok(config, trailer, s2, k));
}

/// Whether some reported item carries the name with a verified status.
fn item_verified(items: &Vec<(String, VerificationStatus)>, name: &str) -> (r: bool)
    ensures
        r == item_reports_verified(items@, items@.len() as int, name@),
{
    let n = items.len();
    let mut i: usize = 0;
    while i < n
        invariant
            i <= n,
            n == items@.len(),
            forall|k: int|
                0 <= k < i ==> !((#[trigger] items@[k]).0@ == name@ && items@[k].1 is Verified),
        decreases n - i,
    {
        let is_v: bool = match &items[i].1 {
            VerificationStatus::Verified => true,
            _ => false,
        };
        if is_v && crate::text::str_eq(items[i].0.as_str(), name) {
            proof {
                assert(items@[i as int].0@ == name@ && items@[i as int].1 is Verified);
                assert(item_reports_verified(items@, items@.len() as int, name@));
            }
            return true;
        }
        i = i + 1;
    }
    proof {
        assert(!item_reports_verified(items@, items@.len() as int, name@));
    }
    false
}

/// Validate a trailer against the working tree: every non-aggregate
/// tracked check is verified exactly when the trailer carries its current
/// truncated expected hash; an aggregate is verified exactly when every
/// dependency seen so far is.  Returns the statuses in dependency order
/// and whether anything is unverified.
pub fn check_trailer(project_root: &str, config: &Config, trailer: Option<&StrMap>) -> (r: Result<
    (Vec<(String, VerificationStatus)>, bool),
    TrailerError,
>)
    requires
        match trailer {
            Some(m) => m.wf(),
            None => true,
        },
    ensures
        r matches Ok(pair) ==> (pair.1 == exists|i: int|
            0 <= i < pair.0@.len() && !((#[trigger] pair.0@[i]).1 is Verified)) && (
        crate::config::names_unique(*config) ==> forall|name: Seq<char>| #[trigger]
            checked_name_covered(*config, pair.0@, name)) && (crate::config::names_unique(*config)
            ==> forall|k: int|
            0 <= k < pair.0@.len() ==> #[trigger] trailer_item_ok(*config, trailer, pair.0@, k)),
        r matches Err(TrailerError::Cycle { name }) ==> crate::graph::blocked_set_with(
            crate::config::verifications_of(*config),
            name@,
        ),
{
    let expected = match compute_all_expected_hashes(project_root, config) {
        Ok(m) => m,
        Err(e) => {
            return Err(e);
        },
    };
    let graph = match DependencyGraph::from_config(config) {
        Ok(g) => g,
        Err(crate::graph::GraphError::Cycle { name }) => {
            return Err(TrailerError::Cycle { name });
        },
    };
    let waves = graph.execution_waves();
    let mut items: Vec<(String, VerificationStatus)> = Vec::new();
    let mut has_unverified: bool = false;
    let tn = waves.len();
    let mut t: usize = 0;
    while t < tn
        invariant
            graph.wf(),
            graph.waves_ok(),
            graph.waves_complete(),
            crate::hasher::views_of(graph.names@) == crate::config::verifications_of(
                *config,
            ).map_values(|v: Verification| v.name@),
            waves@.len() == graph.waves@.len(),
            forall|u: int| 0 <= u < waves@.len() ==> (#[trigger] waves@[u]@.len())
                == graph.waves@[u]@.len(),
            forall|u: int, q: int|
                0 <= u < waves@.len() && 0 <= q < waves@[u]@.len() ==> (#[trigger] waves@[u]@[q])@
                    == graph.names@[graph.waves@[u]@[q] as int]@,
            tn == waves@.len(),
            t <= tn,
            expected.wf(),
            forall|x: Seq<char>| #[trigger]
                expected@.contains_key(x) ==> names_tracked_check_hash(*config, x, expected@[x]),
            crate::config::names_unique(*config) ==> forall|nm: Seq<char>| #[trigger]
                tracked_name_covered(*config, expected@, nm),
            match trailer {
                Some(m) => m.wf(),
                None => true,
            },
            has_unverified == exists|i: int|
                0 <= i < items@.len() && !((#[trigger] items@[i]).1 is Verified),
            crate::config::names_unique(*config) ==> forall|k: int|
                0 <= k < items@.len() ==> #[trigger] trailer_item_ok(*config, trailer, items@, k),
            crate::config::names_unique(*config) ==> forall|u: int, q: int|
                0 <= u < t && 0 <= q < graph.waves@[u]@.len() ==> checked_name_covered(
                    *config,
                    items@,
                    graph.names@[(#[trigger] graph.waves@[u]@[q]) as int]@,
                ),
        decreases tn - t,
    {
        let wl = waves[t].len();
        let mut p: usize = 0;
        while p < wl
            invariant
                graph.wf(),
                graph.waves_ok(),
                crate::hasher::views_of(graph.names@) == crate::config::verifications_of(
                    *config,
                ).map_values(|v: Verification| v.name@),
                waves@.len() == graph.waves@.len(),
                forall|u: int| 0 <= u < waves@.len() ==> (#[trigger] waves@[u]@.len())
                    == graph.waves@[u]@.len(),
                forall|u: int, q: int|
                    0 <= u < waves@.len() && 0 <= q < waves@[u]@.len() ==> (
                    #[trigger] waves@[u]@[q])@ == graph.names@[graph.waves@[u]@[q] as int]@,
                tn == waves@.len(),
                t < tn,
                wl == waves@[t as int]@.len(),
                p <= wl,
                expected.wf(),
                forall|x: Seq<char>| #[trigger]
                    expected@.contains_key(x) ==> names_tracked_check_hash(
                        *config,
                        x,
                        expected@[x],
                    ),
                crate::config::names_unique(*config) ==> forall|nm: Seq<char>| #[trigger]
                    tracked_name_covered(*config, expected@, nm),
                match trailer {
                    Some(m) => m.wf(),
                    None => true,
                },
                has_unverified == exists|i: int|
                    0 <= i < items@.len() && !((#[trigger] items@[i]).1 is Verified),
                crate::config::names_unique(*config) ==> forall|k: int|
                    0 <= k < items@.len() ==> #[trigger] trailer_item_ok(
                        *config,
                        trailer,
                        items@,
                        k,
                    ),
                crate::config::names_unique(*config) ==> forall|u: int, q: int|
                    0 <= u < waves@.len() && 0 <= q < graph.waves@[u]@.len() && (u < t || (u == t
                        && q < p)) ==> checked_name_covered(
                        *config,
                        items@,
                        graph.names@[(#[trigger] graph.waves@[u]@[q]) as int]@,
                    ),
            decreases wl - p,
        {
            let name = &waves[t][p];
            let ghost items_pre = items@;
            match config.get(name.as_str()) {
                None => {
                    proof {
                        if crate::config::names_unique(*config) {
                            assert(checked_name_covered(*config, items@, name@)) by {
                                if exists|i: int|
                                    0 <= i < config.verifications@.len() && ((
                                    #[trigger] config.verifications@[i])
                                        matches VerificationItem::Verification(c) && c.name@
                                        == name@ && (c.command is None || c.cache_paths@.len()
                                        > 0)) {
                                    let i = choose|i: int|
                                        0 <= i < config.verifications@.len() && ((
                                        #[trigger] config.verifications@[i])
                                            matches VerificationItem::Verification(c) && c.name@
                                            == name@ && (c.command is None
                                            || c.cache_paths@.len() > 0));
                                    assert(config.verifications@[i]->Verification_0.name@
                                        != name@);
                                    assert(false);
                                }
                            }
                        }
                    }
                },
                Some(check) => {
                    let ghost items0 = items@;
                    if check.command.is_none() {
                        // An aggregate: verified exactly when every
                        // dependency was reported verified in this walk.
                        let mut all_ok: bool = true;
                        let mut failed_dep: Option<String> = None;
                        let dn = check.depends_on.len();
                        let mut d: usize = 0;
                        proof {
                            assert(check.depends_on@.take(0)
                                =~= Seq::<String>::empty());
                        }
                        while d < dn
                            invariant
                                d <= dn,
                                dn == check.depends_on@.len(),
                                items@ == items0,
                                all_ok == (failed_dep is None),
                                all_ok == deps_reported_verified(
                                    check.depends_on@.take(d as int),
                                    items@,
                                    items@.len() as int,
                                ),
                            decreases dn - d,
                        {
                            let dep = &check.depends_on[d];
                            let ok = item_verified(&items, dep.as_str());
                            proof {
                                assert(check.depends_on@.take(d + 1).drop_last()
                                    =~= check.depends_on@.take(d as int));
                                assert(check.depends_on@.take(d + 1).last()
                                    == check.depends_on@[d as int]);
                            }
                            if !ok && all_ok {
                                all_ok = false;
                                failed_dep = Some(dep.clone());
                            }
                            d = d + 1;
                        }
                        proof {
                            assert(check.depends_on@.take(dn as int) =~= check.depends_on@);
                        }
                        let status = if all_ok {
                            VerificationStatus::Verified
                        } else {
                            let dep_name = match failed_dep {
                                Some(n) => n,
                                None => String::new(),
                            };
                            VerificationStatus::Unverified {
                                reason: crate::cache::UnverifiedReason::DependencyUnverified {
                                    dependency: dep_name,
                                },
                            }
                        };
                        if !all_ok {
                            has_unverified = true;
                        }
                        let is_v = all_ok;
                        let ghost status_g = status;
                        items.push((name.clone(), status));
                        proof {
                            assert((items@[items@.len() - 1]).0@ == name@);
                            if crate::config::names_unique(*config) {
                                let kn = items0.len() as int;
                                assert(items@[kn] == (items@[kn].0, status_g));
                                lemma_deps_reported_stable(
                                    check.depends_on@,
                                    items0,
                                    items@,
                                    kn,
                                );
                                assert(aggregate_deps_verified(*check, items@, kn) == all_ok);
                                let i = choose|i: int|
                                    0 <= i < config.verifications@.len()
                                        && #[trigger] config.verifications@[i]
                                        == VerificationItem::Verification(*check);
                                assert(trailer_item_body(*config, trailer, items@, kn, i));
                                assert forall|k: int|
                                    0 <= k < items@.len() implies #[trigger] trailer_item_ok(
                                    *config,
                                    trailer,
                                    items@,
                                    k,
                                ) by {
                                    if k < items0.len() {
                                        assert(trailer_item_ok(*config, trailer, items0, k));
                                        lemma_item_ok_stable(*config, trailer, items0, items@, k);
                                    } else {
                                        assert(trailer_item_body(*config, trailer, items@, k, i));
                                    }
                                }
                            }
                            assert((exists|i: int|
                                0 <= i < items@.len() && !((#[trigger] items@[i]).1 is Verified))
                                == ((exists|i: int|
                                0 <= i < items0.len() && !((#[trigger] items0[i]).1 is Verified))
                                || !is_v)) by {
                                if exists|i: int|
                                    0 <= i < items@.len() && !((#[trigger] items@[i]).1 is
                                    Verified) {
                                    let i = choose|i: int|
                                        0 <= i < items@.len() && !((#[trigger] items@[i]).1 is
                                            Verified);
                                    if i < items0.len() {
                                        assert(items0[i] == items@[i]);
                                    } else {
                                        assert(!is_v);
                                    }
                                }
                                if exists|i: int|
                                    0 <= i < items0.len() && !((#[trigger] items0[i]).1 is
                                    Verified) {
                                    let i = choose|i: int|
                                        0 <= i < items0.len() && !((#[trigger] items0[i]).1 is
                                            Verified);
                                    assert(items@[i] == items0[i]);
                                }
                                if !is_v {
                                    assert(!((items@[items0.len() as int]).1 is Verified));
                                }
                            }
                        }
                    } else if check.cache_paths.len() > 0 {
                        let mut trailer_present: bool = false;
                        let ghost mut ev: Seq<char> = Seq::empty();
                        let verified = match expected.get(name.as_str()) {
                            Some(h) => {
                                proof {
                                    ev = h@;
                                    assert(expected@.contains_key(name@));
                                    assert(names_tracked_check_hash(*config, name@, ev));
                                }
                                let tv: Option<&String> = match trailer {
                                    Some(m) => m.get(name.as_str()),
                                    None => None,
                                };
                                trailer_present = match tv {
                                    Some(_) => true,
                                    None => false,
                                };
                                let ghost tv_g = tv;
                                let vr = trailer_entry_verified(h.as_str(), tv);
                                proof {
                                    assert(vr == (tv_g matches Some(v) && v@ == truncate8(ev)));
                                    match trailer {
                                        Some(m) => {
                                            match tv_g {
                                                Some(v) => {
                                                    assert(m@.contains_key(name@) && v@
                                                        == m@[name@]);
                                                },
                                                None => {
                                                    assert(!m@.contains_key(name@));
                                                },
                                            }
                                        },
                                        None => (),
                                    }
                                }
                                vr
                            },
                            None => {
                                proof {
                                    if crate::config::names_unique(*config) {
                                        assert(tracked_name_covered(*config, expected@, name@));
                                        assert(exists|i: int|
                                            0 <= i < config.verifications@.len() && ((
                                            #[trigger] config.verifications@[i])
                                                matches VerificationItem::Verification(c)
                                                && c.name@ == name@ && c.command is Some
                                                && c.cache_paths@.len() > 0)) by {
                                            let i = choose|i: int|
                                                0 <= i < config.verifications@.len()
                                                    && #[trigger] config.verifications@[i]
                                                    == VerificationItem::Verification(*check);
                                            assert(config.verifications@[i]
                                                matches VerificationItem::Verification(c)
                                                && c.name@ == name@ && c.command is Some
                                                && c.cache_paths@.len() > 0);
                                        }
                                        assert(expected@.contains_key(name@));
                                        assert(false);
                                    }
                                }
                                false
                            },
                        };
                        let status = if verified {
                            VerificationStatus::Verified
                        } else if trailer_present {
                            VerificationStatus::Unverified {
                                reason: crate::cache::UnverifiedReason::FilesChanged {
                                    changed_files: Vec::new(),
                                },
                            }
                        } else {
                            VerificationStatus::Unverified {
                                reason: crate::cache::UnverifiedReason::NeverRun,
                            }
                        };
                        if !verified {
                            has_unverified = true;
                        }
                        let ghost status_g = status;
                        items.push((name.clone(), status));
                        proof {
                            assert((items@[items@.len() - 1]).0@ == name@);
                            if crate::config::names_unique(*config) {
                                let kn = items0.len() as int;
                                assert(items@[kn].1 == status_g);
                                assert(tracked_status_matches(
                                    *config,
                                    trailer,
                                    check.name@,
                                    items@[kn].1,
                                    ev,
                                ));
                                let i = choose|i: int|
                                    0 <= i < config.verifications@.len()
                                        && #[trigger] config.verifications@[i]
                                        == VerificationItem::Verification(*check);
                                assert(trailer_item_body(*config, trailer, items@, kn, i));
                                assert forall|k: int|
                                    0 <= k < items@.len() implies #[trigger] trailer_item_ok(
                                    *config,
                                    trailer,
                                    items@,
                                    k,
                                ) by {
                                    if k < items0.len() {
                                        assert(trailer_item_ok(*config, trailer, items0, k));
                                        lemma_item_ok_stable(*config, trailer, items0, items@, k);
                                    } else {
                                        assert(trailer_item_body(*config, trailer, items@, k, i));
                                    }
                                }
                            }
                            assert((exists|i: int|
                                0 <= i < items@.len() && !((#[trigger] items@[i]).1 is Verified))
                                == ((exists|i: int|
                                0 <= i < items0.len() && !((#[trigger] items0[i]).1 is Verified))
                                || !verified)) by {
                                if exists|i: int|
                                    0 <= i < items@.len() && !((#[trigger] items@[i]).1 is
                                    Verified) {
                                    let i = choose|i: int|
                                        0 <= i < items@.len() && !((#[trigger] items@[i]).1 is
                                            Verified);
                                    if i < items0.len() {
                                        assert(items0[i] == items@[i]);
                                    } else {
                                        assert(!verified);
                                    }
                                }
                                if exists|i: int|
                                    0 <= i < items0.len() && !((#[trigger] items0[i]).1 is
                                    Verified) {
                                    let i = choose|i: int|
                                        0 <= i < items0.len() && !((#[trigger] items0[i]).1 is
                                            Verified);
                                    assert(items@[i] == items0[i]);
                                }
                                if !verified {
                                    assert(!((items@[items0.len() as int]).1 is Verified));
                                }
                            }
                        }
                    } else {
                        // An untracked check is left out of the report.
                        proof {
                            if crate::config::names_unique(*config) {
                                assert(checked_name_covered(*config, items@, name@)) by {
                                    if exists|i: int|
                                        0 <= i < config.verifications@.len() && ((
                                        #[trigger] config.verifications@[i])
                                            matches VerificationItem::Verification(c) && c.name@
                                            == name@ && (c.command is None
                                            || c.cache_paths@.len() > 0)) {
                                        let i = choose|i: int|
                                            0 <= i < config.verifications@.len() && ((
                                            #[trigger] config.verifications@[i])
                                                matches VerificationItem::Verification(c)
                                                && c.name@ == name@ && (c.command is None
                                                || c.cache_paths@.len() > 0));
                                        let j = choose|j: int|
                                            0 <= j < config.verifications@.len()
                                                && #[trigger] config.verifications@[j]
                                                == VerificationItem::Verification(*check);
                                        crate::config::lemma_unique_name_same_check(
                                            *config,
                                            i,
                                            j,
                                        );
                                        assert(false);
                                    }
                                }
                            }
                        }
                    }
                },
            }
            proof {
                if crate::config::names_unique(*config) {
                    assert forall|u: int, q: int|
                        0 <= u < waves@.len() && 0 <= q < graph.waves@[u]@.len() && (u < t || (u
                            == t && q < p + 1)) implies checked_name_covered(
                        *config,
                        items@,
                        graph.names@[(#[trigger] graph.waves@[u]@[q]) as int]@,
                    ) by {
                        let nm = graph.names@[graph.waves@[u]@[q] as int]@;
                        if u == t && q == p {
                            assert(checked_name_covered(*config, items@, nm));
                        } else {
                            assert(checked_name_covered(*config, items_pre, nm));
                            if exists|k: int|
                                0 <= k < items_pre.len() && (#[trigger] items_pre[k]).0@ == nm {
                                let k = choose|k: int|
                                    0 <= k < items_pre.len() && (#[trigger] items_pre[k]).0@
                                        == nm;
                                assert(items@[k] == items_pre[k]);
                            }
                        }
                    }
                }
            }
            p = p + 1;
        }
        t = t + 1;
    }
    proof {
        if crate::config::names_unique(*config) {
            assert forall|name: Seq<char>| #[trigger]
                checked_name_covered(*config, items@, name) by {
                if exists|i: int|
                    0 <= i < config.verifications@.len() && ((#[trigger] config.verifications@[i])
                        matches VerificationItem::Verification(c) && c.name@ == name && (
                    c.command is None || c.cache_paths@.len() > 0)) {
                    let i = choose|i: int|
                        0 <= i < config.verifications@.len() && ((
                        #[trigger] config.verifications@[i])
                            matches VerificationItem::Verification(c) && c.name@ == name && (
                        c.command is None || c.cache_paths@.len() > 0));
                    crate::config::lemma_verification_listed(*config, i);
                    let j = choose|j: int|
                        0 <= j < crate::config::verifications_of(*config).len()
                            && #[trigger] crate::config::verifications_of(*config)[j]
                            == config.verifications@[i]->Verification_0;
                    assert(crate::hasher::views_of(graph.names@).len() == graph.names@.len());
                    assert(crate::config::verifications_of(*config).map_values(
                        |v: Verification| v.name@,
                    ).len() == crate::config::verifications_of(*config).len());
                    assert(0 <= j < graph.names@.len());
                    assert(crate::hasher::views_of(graph.names@)[j] == graph.names@[j]@);
                    assert(crate::config::verifications_of(*config).map_values(
                        |v: Verification| v.name@,
                    )[j] == crate::config::verifications_of(*config)[j].name@);
                    assert(graph.names@[j]@ == name);
                    assert(crate::graph::in_waves(graph.waves@, j));
                    let (u, q) = choose|u: int, q: int|
                        0 <= u < graph.waves@.len() && 0 <= q < graph.waves@[u]@.len() && (
                        #[trigger] graph.waves@[u]@[q]) == j;
                    assert(checked_name_covered(*config, items@, graph.names@[j]@));
                }
            }
        }
    }
    Ok((items, has_unverified))
}

/// Seed one check from the trailer exactly when the trailer's value is
/// the truncated combined hash of the given configuration hash and the
/// computed content hash.  On a match the entry becomes a verified one:
/// that configuration and content pair, the current file listing for a
/// per-file check and nothing for an ordinary one, and no metadata (it
/// cannot be recovered from a trailer).  On a mismatch, or when the
/// trailer lacks the name, nothing in the store moves.
pub fn seed_check_from_trailer(
    cache: &mut CacheState,
    check: &Verification,
    config_hash: String,
    hash_result: crate::hasher::HashResult,
    trailer: &StrMap,
) -> (seeded: bool)
    requires
        old(cache).wf(),
        trailer.wf(),
        config_hash@ == config_hash_of(*check),
        hash_result.file_hashes.wf(),
    ensures
        final(cache).wf(),
        final(cache).version == old(cache).version,
        seeded == (trailer@.contains_key(check.name@) && trailer@[check.name@] == truncate8(
            combined_verification_hash_of(config_hash_of(*check), hash_result.combined_hash@),
        )),
        !seeded ==> final(cache).checks@ == old(cache).checks@,
        seeded ==> cache_has(final(cache).checks@, check.name@) && ({
            let e = cache_at(final(cache).checks@, check.name@);
            &&& (e.config_hash matches Some(h) && h@ == config_hash_of(*check))
            &&& (e.content_hash matches Some(c) && c@ == hash_result.combined_hash@)
            &&& e.file_hashes.wf()
            &&& e.file_hashes@ == (if check.per_file {
                hash_result.file_hashes@
            } else {
                Map::<Seq<char>, Seq<char>>::empty()
            })
            &&& e.metadata@.len() == 0
        }),
        seeded ==> forall|x: Seq<char>| #[trigger]
            cache_has(final(cache).checks@, x) == (cache_has(old(cache).checks@, x) || x
                == check.name@),
        seeded ==> forall|x: Seq<char>|
            x != check.name@ && #[trigger] cache_has(old(cache).checks@, x) ==> cache_at(
                final(cache).checks@,
                x,
            ) == cache_at(old(cache).checks@, x),
{
    let combined = compute_combined_hash(config_hash.as_str(), hash_result.combined_hash.as_str());
    let tv = trailer.get(check.name.as_str());
    let ghost tv_g = tv;
    let matched = trailer_entry_verified(combined.as_str(), tv);
    proof {
        match tv_g {
            Some(v) => {
                assert(trailer@.contains_key(check.name@) && v@ == trailer@[check.name@]);
            },
            None => {
                assert(!trailer@.contains_key(check.name@));
            },
        }
    }
    if matched {
        let file_hashes: StrMap = if check.per_file {
            hash_result.file_hashes
        } else {
            StrMap::new()
        };
        cache.put_entry(
            check.name.as_str(),
            Some(config_hash),
            Some(hash_result.combined_hash),
            file_hashes,
            Vec::new(),
        );
        true
    } else {
        false
    }
}

/// Whether an entry of the store reads as seeded from the trailer: the
/// trailer carries the name, and the entry's stored hashes combine and
/// truncate to exactly the trailer's value.
pub open spec fn seeded_entry_ok(
    newc: Seq<(String, crate::cache::CheckCache)>,
    trailer: Map<Seq<char>, Seq<char>>,
    x: Seq<char>,
) -> bool {
    trailer.contains_key(x) && (cache_at(newc, x).config_hash matches Some(cfg) && (cache_at(
        newc,
        x,
    ).content_hash matches Some(content) && trailer[x] == truncate8(
        combined_verification_hash_of(cfg@, content@),
    ))) && cache_at(newc, x).metadata@.len() == 0
}

/// Nothing leaves the store, and every entry that moved was seeded to
/// agree with the trailer: what makes the sync purely additive and never
/// able to mark a check verified against a mismatched trailer value.
pub open spec fn only_seeded_changes(
    oldc: Seq<(String, crate::cache::CheckCache)>,
    newc: Seq<(String, crate::cache::CheckCache)>,
    trailer: Map<Seq<char>, Seq<char>>,
) -> bool {
    &&& forall|x: Seq<char>| #[trigger] cache_has(oldc, x) ==> cache_has(newc, x)
    &&& forall|x: Seq<char>|
        #[trigger] cache_has(newc, x) && !(cache_has(oldc, x) && cache_at(newc, x) == cache_at(
            oldc,
            x,
        )) ==> seeded_entry_ok(newc, trailer, x)
}

/// Seed the lock store from a trailer: a non-aggregate tracked check whose
/// current expected truncated hash equals the trailer's value gets a
/// verified entry; nothing else in the store moves.  The returned names
/// are the seeded checks.
pub fn sync_with_trailer(
    project_root: &str,
    config: &Config,
    cache: &mut CacheState,
    trailer: &StrMap,
) -> (r: Result<Vec<String>, TrailerError>)
    requires
        old(cache).wf(),
        trailer.wf(),
    ensures
        final(cache).wf(),
        final(cache).version == old(cache).version,
        only_seeded_changes(old(cache).checks@, final(cache).checks@, trailer@),
        r matches Ok(names) ==> forall|k: int|
            0 <= k < names@.len() ==> trailer@.contains_key((#[trigger] names@[k])@) && cache_has(
                final(cache).checks@,
                names@[k]@,
            ),
        r matches Err(TrailerError::Cycle { name }) ==> crate::graph::blocked_set_with(
            crate::config::verifications_of(*config),
            name@,
        ),
{
    let graph = match DependencyGraph::from_config(config) {
        Ok(g) => g,
        Err(crate::graph::GraphError::Cycle { name }) => {
            return Err(TrailerError::Cycle { name });
        },
    };
    let waves = graph.execution_waves();
    let mut synced: Vec<String> = Vec::new();
    let tn = waves.len();
    let mut t: usize = 0;
    while t < tn
        invariant
            trailer.wf(),
            cache.wf(),
            cache.version == old(cache).version,
            tn == waves@.len(),
            t <= tn,
            only_seeded_changes(old(cache).checks@, cache.checks@, trailer@),
            forall|k: int|
                0 <= k < synced@.len() ==> trailer@.contains_key((#[trigger] synced@[k])@)
                    && cache_has(cache.checks@, synced@[k]@),
        decreases tn - t,
    {
        let wl = waves[t].len();
        let mut p: usize = 0;
        while p < wl
            invariant
                trailer.wf(),
                cache.wf(),
                cache.version == old(cache).version,
                tn == waves@.len(),
                t < tn,
                wl == waves@[t as int]@.len(),
                p <= wl,
                only_seeded_changes(old(cache).checks@, cache.checks@, trailer@),
                forall|k: int|
                    0 <= k < synced@.len() ==> trailer@.contains_key((#[trigger] synced@[k])@)
                        && cache_has(cache.checks@, synced@[k]@),
            decreases wl - p,
        {
            let name = &waves[t][p];
            match config.get(name.as_str()) {
                None => (),
                Some(check) => {
                    if check.command.is_some() && check.cache_paths.len() > 0 {
                        let config_hash = check.config_hash();
                        match compute_check_hash(project_root, &check.cache_paths) {
                            Err(e) => {
                                return Err(TrailerError::Hashing { error: e });
                            },
                            Ok(hash_result) => {
                                let ghost pre = cache.checks@;
                                let ghost content_v = hash_result.combined_hash@;
                                let seeded = seed_check_from_trailer(
                                    cache,
                                    check,
                                    config_hash,
                                    hash_result,
                                    trailer,
                                );
                                if seeded {
                                    synced.push(name.clone());
                                    proof {
                                        let oldc = old(cache).checks@;
                                        let cur = cache.checks@;
                                        assert(trailer@.contains_key(name@));
                                        assert(trailer@[name@] == truncate8(
                                            combined_verification_hash_of(
                                                config_hash_of(*check),
                                                content_v,
                                            ),
                                        ));
                                        assert(seeded_entry_ok(cur, trailer@, name@)) by {
                                            assert(cache_at(cur, name@).config_hash
                                                matches Some(h) && h@ == config_hash_of(*check));
                                            assert(cache_at(cur, name@).content_hash
                                                matches Some(c) && c@ == content_v);
                                        }
                                        assert forall|x: Seq<char>| #[trigger]
                                            cache_has(oldc, x) implies cache_has(cur, x) by {
                                            assert(cache_has(pre, x));
                                        }
                                        assert forall|x: Seq<char>|
                                            #[trigger] cache_has(cur, x) && !(cache_has(oldc, x)
                                                && cache_at(cur, x) == cache_at(
                                                oldc,
                                                x,
                                            )) implies seeded_entry_ok(cur, trailer@, x) by {
                                            if x != name@ {
                                                assert(cache_has(cur, x) == (cache_has(pre, x) || x
                                                    == name@));
                                                assert(cache_has(pre, x));
                                                assert(cache_at(cur, x) == cache_at(pre, x));
                                                assert(seeded_entry_ok(pre, trailer@, x));
                                                assert(cache_at(cur, x) == cache_at(pre, x));
                                            }
                                        }
                                    }
                                }
                            },
                        }
                    }
                },
            }
            p = p + 1;
        }
        t = t + 1;
    }
    Ok(synced)
}


/// What makes one entry survive the trailer round trip: a nonempty name
/// free of commas and colons and not starting with whitespace, and a
/// nonempty truncated hash free of commas and not ending with whitespace.
pub open spec fn pair_formattable(e: (Seq<char>, Seq<char>)) -> bool {
    let n = e.0;
    let t = truncate8(e.1);
    &&& n.len() > 0
    &&& t.len() > 0
    &&& (forall|j: int| 0 <= j < n.len() ==> #[trigger] n[j] != ',' && n[j] != ':')
    &&& (forall|j: int| 0 <= j < t.len() ==> #[trigger] t[j] != ',')
    &&& !is_ws(n[0])
    &&& !is_ws(t.last())
}

/// Every entry of the list survives the round trip.
pub open spec fn trailer_formattable(entries: Seq<(Seq<char>, Seq<char>)>) -> bool {
    forall|i: int| 0 <= i < entries.len() ==> pair_formattable(#[trigger] entries[i])
}

/// The entries with their hashes truncated.
pub open spec fn truncated_entries(entries: Seq<(Seq<char>, Seq<char>)>) -> Seq<
    (Seq<char>, Seq<char>),
> {
    entries.map_values(|e: (Seq<char>, Seq<char>)| (e.0, truncate8(e.1)))
}

/// Truncating twice is truncating once.
proof fn lemma_truncate8_idempotent(s: Seq<char>)
    ensures
        truncate8(truncate8(s)) == truncate8(s),
{
}

/// A formattable pair's text parses back to exactly that pair.
proof fn lemma_pair_text_parses(n: Seq<char>, v: Seq<char>)
    requires
        pair_formattable((n, v)),
    ensures
        pair_of(pair_text(n, v)) == Some((n, truncate8(v))),
{
    let t = truncate8(v);
    let s = pair_text(n, v);
    assert(s.len() == n.len() + 1 + t.len());
    assert(s[0] == n[0]);
    assert(s.last() == t.last());
    assert(!is_ws(s[0]));
    assert(!is_ws(s.last()));
    assert(trim_front(s) == s);
    assert(trim_back(s) == s);
    assert(trim_spec(s) == s);
    lemma_first_colon(s);
    assert(s[n.len() as int] == ':');
    let fc = first_colon(s);
    assert(fc == n.len()) by {
        if fc < n.len() {
            assert(s[fc] == n[fc]);
            assert(n[fc] != ':');
        }
        if fc > n.len() {
            assert(s[n.len() as int] != ':');
        }
    }
    assert(s.take(fc) =~= n);
    assert(s.skip(fc + 1) =~= t);
}

/// A formattable pair's text holds no comma.
proof fn lemma_pair_text_no_comma(n: Seq<char>, v: Seq<char>)
    requires
        pair_formattable((n, v)),
    ensures
        forall|j: int| 0 <= j < pair_text(n, v).len() ==> #[trigger] pair_text(n, v)[j] != ',',
{
    let t = truncate8(v);
    let s = pair_text(n, v);
    assert forall|j: int| 0 <= j < s.len() implies #[trigger] s[j] != ',' by {
        if j < n.len() {
            assert(s[j] == n[j]);
        } else if j == n.len() {
            assert(s[j] == ':');
        } else {
            assert(s[j] == t[j - n.len() - 1]);
        }
    }
}

/// The trailer text of a formattable entry list parses back to the
/// truncated entries, in order.
proof fn lemma_trailer_text_pairs(entries: Seq<(Seq<char>, Seq<char>)>)
    requires
        trailer_formattable(entries),
    ensures
        pairs_of(trailer_text_of(entries)) == truncated_entries(entries),
    decreases entries.len(),
{
    let s = trailer_text_of(entries);
    if entries.len() == 0 {
        lemma_first_comma(s);
        assert(first_comma(s) == 0);
        assert(trim_spec(s) == s);
        assert(first_colon(s) == 0);
        assert(pair_of(s) is None);
        assert(pairs_of(s) =~= truncated_entries(entries));
    } else if entries.len() == 1 {
        let e0 = entries[0];
        assert(pair_formattable(e0));
        let p0 = pair_text(e0.0, e0.1);
        assert(s == p0);
        lemma_pair_text_no_comma(e0.0, e0.1);
        lemma_first_comma(s);
        assert(first_comma(s) == s.len()) by {
            if first_comma(s) < s.len() {
                assert(s[first_comma(s)] == ',');
            }
        }
        lemma_pair_text_parses(e0.0, e0.1);
        assert(pairs_of(s) =~= seq![(e0.0, truncate8(e0.1))]);
        assert(pairs_of(s) =~= truncated_entries(entries));
    } else {
        let e0 = entries[0];
        assert(pair_formattable(e0));
        let p0 = pair_text(e0.0, e0.1);
        let rest = trailer_text_of(entries.drop_first());
        assert(s == p0 + seq![','] + rest);
        lemma_pair_text_no_comma(e0.0, e0.1);
        lemma_first_comma(s);
        assert(s[p0.len() as int] == ',');
        let k = first_comma(s);
        assert(k == p0.len()) by {
            if k < p0.len() {
                assert(s[k] == p0[k]);
                assert(p0[k] != ',');
            }
            if k > p0.len() {
                assert(s[p0.len() as int] != ',');
            }
        }
        assert(s.take(k) =~= p0);
        assert(s.skip(k + 1) =~= rest);
        lemma_pair_text_parses(e0.0, e0.1);
        assert forall|i: int|
            0 <= i < entries.drop_first().len() implies pair_formattable(
            #[trigger] entries.drop_first()[i]) by {
            assert(entries.drop_first()[i] == entries[i + 1]);
        }
        lemma_trailer_text_pairs(entries.drop_first());
        assert(pairs_of(s) == seq![(e0.0, truncate8(e0.1))] + pairs_of(rest));
        assert(truncated_entries(entries.drop_first()) =~= truncated_entries(
            entries,
        ).drop_first());
        assert(pairs_of(s) =~= truncated_entries(entries));
    }
}

/// With pairwise distinct keys the last-wins map is the plain map of the
/// pairs.
proof fn lemma_last_wins_distinct(pairs: Seq<(Seq<char>, Seq<char>)>)
    requires
        forall|i: int, j: int|
            0 <= i < j < pairs.len() ==> (#[trigger] pairs[i]).0 != (#[trigger] pairs[j]).0,
    ensures
        last_wins_map(pairs) == crate::strmap::assoc_map(pairs),
    decreases pairs.len(),
{
    if pairs.len() > 0 {
        assert forall|i: int, j: int|
            0 <= i < j < pairs.drop_last().len() implies (#[trigger] pairs.drop_last()[i]).0 != (
        #[trigger] pairs.drop_last()[j]).0 by {
            assert(pairs.drop_last()[i] == pairs[i] && pairs.drop_last()[j] == pairs[j]);
        }
        lemma_last_wins_distinct(pairs.drop_last());
        let d = pairs.drop_last();
        let e = pairs.last();
        assert forall|x: Seq<char>| #[trigger]
            crate::strmap::has_key(pairs, x) == (crate::strmap::has_key(d, x) || x == e.0) by {
            if crate::strmap::has_key(pairs, x) {
                let p = choose|p: int| 0 <= p < pairs.len() && (#[trigger] pairs[p]).0 == x;
                if p < pairs.len() - 1 {
                    assert(d[p].0 == x);
                }
            }
            if crate::strmap::has_key(d, x) {
                let p = choose|p: int| 0 <= p < d.len() && (#[trigger] d[p]).0 == x;
                assert(pairs[p].0 == x);
            }
            if x == e.0 {
                assert(pairs[pairs.len() - 1].0 == x);
            }
        }
        assert forall|x: Seq<char>|
            #[trigger] crate::strmap::has_key(pairs, x) implies crate::strmap::assoc_map(pairs)[x]
            == crate::strmap::assoc_map(d).insert(e.0, e.1)[x] by {
            let p = crate::strmap::key_index(pairs, x);
            assert(0 <= p < pairs.len() && pairs[p].0 == x);
            if x == e.0 {
                assert(p == pairs.len() - 1) by {
                    if p < pairs.len() - 1 {
                        assert(pairs[p].0 != pairs[pairs.len() - 1].0);
                    }
                }
                assert(crate::strmap::assoc_map(pairs)[x] == e.1);
            } else {
                assert(p < pairs.len() - 1) by {
                    assert(pairs[pairs.len() - 1].0 == e.0);
                }
                assert(d[p].0 == x);
                assert(crate::strmap::has_key(d, x));
                let q = crate::strmap::key_index(d, x);
                assert(0 <= q < d.len() && d[q].0 == x);
                assert(q == p) by {
                    if q != p {
                        assert(pairs[q].0 == x && pairs[p].0 == x);
                        assert(pairs[q].0 != pairs[p].0);
                    }
                }
                assert(crate::strmap::assoc_map(pairs)[x] == pairs[p].1);
                assert(crate::strmap::assoc_map(d)[x] == d[p].1);
                assert(d[p] == pairs[p]);
            }
        }
        assert(crate::strmap::assoc_map(pairs) =~= crate::strmap::assoc_map(d).insert(e.0, e.1));
    }
}

/// Formatting what a formatted trailer parses back to gives the same
/// text: the round trip is the identity on trailer values the library
/// produces, for entries whose names and hashes carry no separator or
/// edge whitespace.
pub proof fn lemma_trailer_round_trip(entries: Seq<(Seq<char>, Seq<char>)>)
    requires
        crate::strmap::keys_sorted(entries),
        trailer_formattable(entries),
    ensures
        ({
            let parsed = trailer_map_of(trailer_text_of(entries));
            trailer_text_of(crate::strmap::canonical_entries(parsed)) == trailer_text_of(entries)
        }),
{
    let text = trailer_text_of(entries);
    lemma_trailer_text_pairs(entries);
    let tr = truncated_entries(entries);
    assert(crate::strmap::keys_sorted(tr)) by {
        assert forall|i: int, j: int| 0 <= i < j < tr.len() implies crate::text::lex_lt(
            (#[trigger] tr[i]).0,
            (#[trigger] tr[j]).0,
        ) by {
            assert(tr[i].0 == entries[i].0 && tr[j].0 == entries[j].0);
        }
    }
    assert forall|i: int, j: int| 0 <= i < j < tr.len() implies (#[trigger] tr[i]).0 != (
    #[trigger] tr[j]).0 by {
        crate::text::lemma_lex_lt_irreflexive(tr[i].0);
    }
    lemma_last_wins_distinct(tr);
    assert(trailer_map_of(text) == crate::strmap::assoc_map(tr));
    let parsed = trailer_map_of(text);
    let canon = crate::strmap::canonical_entries(parsed);
    assert(canon == tr) by {
        assert(exists|s: Seq<(Seq<char>, Seq<char>)>|
            crate::strmap::keys_sorted(s) && #[trigger] crate::strmap::assoc_map(s) == parsed) by {
            assert(crate::strmap::keys_sorted(tr) && crate::strmap::assoc_map(tr) == parsed);
        }
        assert(crate::strmap::keys_sorted(canon) && crate::strmap::assoc_map(canon) == parsed);
        crate::strmap::lemma_sorted_canonical(canon, tr);
    }
    assert(trailer_text_of(tr) == trailer_text_of(entries)) by {
        lemma_text_of_truncated(entries);
    }
}

/// Truncating the hashes does not change the trailer text: the text
/// already truncates.
proof fn lemma_text_of_truncated(entries: Seq<(Seq<char>, Seq<char>)>)
    ensures
        trailer_text_of(truncated_entries(entries)) == trailer_text_of(entries),
    decreases entries.len(),
{
    let tr = truncated_entries(entries);
    if entries.len() == 0 {
    } else {
        lemma_truncate8_idempotent(entries[0].1);
        assert(pair_text(tr[0].0, tr[0].1) == pair_text(entries[0].0, entries[0].1));
        lemma_text_of_truncated(entries.drop_first());
        assert(truncated_entries(entries.drop_first()) =~= tr.drop_first());
        if entries.len() == 1 {
            assert(trailer_text_of(tr) == pair_text(tr[0].0, tr[0].1));
        }
    }
}

} // verus!
