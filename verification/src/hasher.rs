//! Content hashing: per-file digests, the combined per-check hash over the
//! sorted file set, and the comparison of two file listings.

use vstd::prelude::*;

use crate::strmap::has_key;
use crate::strmap::lemma_key_index;
use crate::strmap::lemma_sorted_canonical;
use crate::strmap::StrMap;
use crate::text::chars_to_string;
use crate::text::lemma_lex_lt_connex;
use crate::text::lemma_lex_lt_transitive;
use crate::text::lex_lt;
use crate::text::str_eq;
use crate::text::str_lt;

verus! {

/// The hex form of the BLAKE3 digest of a string's bytes.  What the digest
/// is takes pages to state; the name records only that it is a function of
/// the input alone.
pub uninterp spec fn blake3_hex_of(data: Seq<char>) -> Seq<char>;

/// Relies on `blake3::Hasher` (`update`, `finalize`, `to_hex`): the result
/// is the digest of the input's bytes as 64 hex characters, a function of
/// the input alone.
#[verifier::external_body]
pub(crate) fn blake3_hex(data: &str) -> (r: String)
    ensures
        r@ == blake3_hex_of(data@),
        r@.len() == 64,
{
    let mut hasher = blake3::Hasher::new();
    hasher.update(data.as_bytes());
    hasher.finalize().to_hex().as_str().to_string()
}

/// How expanding one glob pattern can fail.
enum GlobFailure {
    /// The pattern itself does not parse.
    Pattern,
    /// A directory entry could not be read while matching.
    Entry,
}

/// Relies on `glob::glob`: expands a filesystem glob pattern; iterating the
/// returned matches walks directories on disk, so nothing is promised of
/// the outcome.
#[verifier::external_body]
fn glob_paths(pattern: &str) -> (r: Result<Vec<String>, GlobFailure>) {
    match glob::glob(pattern) {
        Err(_) => Err(GlobFailure::Pattern),
        Ok(paths) => {
            let mut out: Vec<String> = Vec::new();
            for entry in paths {
                match entry {
                    Ok(p) => out.push(p.to_string_lossy().into_owned()),
                    Err(_) => return Err(GlobFailure::Entry),
                }
            }
            Ok(out)
        },
    }
}

/// Relies on `std::path::Path::is_file`: true exactly when the path names
/// an existing regular file on disk.
#[verifier::external_body]
pub(crate) fn path_is_file(p: &str) -> bool {
    std::path::Path::new(p).is_file()
}

/// Relies on `blake3::Hasher::update_mmap`: on success the result is the
/// 64-hex-character BLAKE3 digest of the file's bytes on disk.
#[verifier::external_body]
fn hash_file_hex(path: &str) -> (r: Result<String, ()>)
    ensures
        r matches Ok(h) ==> h@.len() == 64,
{
    let mut hasher = blake3::Hasher::new();
    match hasher.update_mmap(path) {
        Ok(_) => Ok(hasher.finalize().to_hex().as_str().to_string()),
        Err(_) => Err(()),
    }
}

/// Why hashing a check's inputs failed.
#[derive(Debug)]
pub enum HashError {
    /// A glob pattern does not parse.
    InvalidPattern { pattern: String },
    /// A directory entry could not be read while matching a pattern.
    PatternRead { pattern: String },
    /// A matched file could not be read.
    FileRead { path: String },
}

impl HashError {
    /// A human-readable description.
    pub fn message(&self) -> String {
        let mut m = String::new();
        match self {
            HashError::InvalidPattern { pattern } => {
                m.append("Invalid glob pattern: ");
                m.append(pattern.as_str());
            },
            HashError::PatternRead { pattern } => {
                m.append("Error reading glob entry for: ");
                m.append(pattern.as_str());
            },
            HashError::FileRead { path } => {
                m.append("Failed to hash file: ");
                m.append(path.as_str());
            },
        }
        m
    }
}

/// What hashing a check's inputs yields: the combined hash and the digest
/// of each file, keyed by relative path.
pub struct HashResult {
    /// Hash over the whole sorted file listing.
    pub combined_hash: String,
    /// Per-file hashes, keyed by path relative to the project root.
    pub file_hashes: StrMap,
}

/// The text whose digest is the combined hash: every `path:hash` line of
/// the sorted file listing.
pub open spec fn combined_preimage(entries: Seq<(Seq<char>, Seq<char>)>) -> Seq<char>
    decreases entries.len(),
{
    if entries.len() == 0 {
        Seq::empty()
    } else {
        combined_preimage(entries.drop_last()) + entries.last().0 + seq![':'] + entries.last().1
            + seq!['\n']
    }
}

/// The combined hash of a file listing, as a function of the listing.
pub open spec fn combined_hash_of(entries: Seq<(Seq<char>, Seq<char>)>) -> Seq<char> {
    blake3_hex_of(combined_preimage(entries))
}

/// Hash the sorted file listing into one combined digest.
pub fn combine_file_hashes(files: &StrMap) -> (r: String)
    ensures
        r@ == combined_hash_of(files.entries_view()),
        r@.len() == 64,
{
    let ghost entries = files.entries_view();
    let mut preimage = String::new();
    let n = files.len();
    let mut i: usize = 0;
    proof {
        reveal_strlit(":");
        reveal_strlit("\n");
        assert(entries.take(0) =~= Seq::<(Seq<char>, Seq<char>)>::empty());
    }
    while i < n
        invariant
            i <= n,
            n == entries.len(),
            entries == files.entries_view(),
            preimage@ == combined_preimage(entries.take(i as int)),
        decreases n - i,
    {
        proof {
            reveal_strlit(":");
            reveal_strlit("\n");
        }
        preimage.append(files.key_at(i).as_str());
        preimage.append(":");
        preimage.append(files.val_at(i).as_str());
        preimage.append("\n");
        proof {
            assert(entries.take(i + 1).drop_last() =~= entries.take(i as int));
            assert(entries.take(i + 1).last() == entries[i as int]);
        }
        i = i + 1;
    }
    proof {
        assert(entries.take(n as int) =~= entries);
    }
    blake3_hex(preimage.as_str())
}

/// The combined hash is a function of the file map alone: listings that
/// agree as maps agree on the hash, whatever order they were collected in.
pub proof fn lemma_combined_hash_of_map(a: StrMap, b: StrMap)
    requires
        a.wf(),
        b.wf(),
        a@ == b@,
    ensures
        combined_hash_of(a.entries_view()) == combined_hash_of(b.entries_view()),
{
    lemma_sorted_canonical(a.entries_view(), b.entries_view());
}

/// Join a root directory and a relative pattern with a separator.
pub open spec fn join_spec(root: Seq<char>, pattern: Seq<char>) -> Seq<char> {
    if root.len() == 0 || (pattern.len() > 0 && pattern[0] == '/') {
        pattern
    } else if root[root.len() - 1] == '/' {
        root + pattern
    } else {
        root + seq!['/'] + pattern
    }
}

/// Join a root directory and a relative pattern.
pub fn join_path(root: &str, pattern: &str) -> (r: String)
    ensures
        r@ == join_spec(root@, pattern@),
{
    let rlen = root.unicode_len();
    let plen = pattern.unicode_len();
    if rlen == 0 || (plen > 0 && pattern.get_char(0) == '/') {
        let mut r = String::new();
        r.append(pattern);
        return r;
    }
    let mut r = String::new();
    r.append(root);
    if root.get_char(rlen - 1) != '/' {
        proof {
            reveal_strlit("/");
        }
        r.append("/");
    }
    r.append(pattern);
    r
}

/// Drop a leading `root/` from a path; a path not under the root is kept
/// whole.
pub open spec fn strip_prefix_spec(path: Seq<char>, root: Seq<char>) -> Seq<char> {
    if root.len() > 0 && path.len() > root.len() && path.take(root.len() as int) == root && path[
        root.len() as int
    ] == '/' {
        path.skip(root.len() as int + 1)
    } else {
        path
    }
}

/// Make a path relative to the project root.
pub fn strip_path_prefix(path: &str, root: &str) -> (r: String)
    ensures
        r@ == strip_prefix_spec(path@, root@),
{
    let plen = path.unicode_len();
    let rlen = root.unicode_len();
    if rlen == 0 || plen <= rlen {
        let mut r = String::new();
        r.append(path);
        return r;
    }
    let mut i: usize = 0;
    while i < rlen
        invariant
            i <= rlen,
            rlen < plen,
            plen == path@.len(),
            rlen == root@.len(),
            forall|j: int| 0 <= j < i ==> path@[j] == root@[j],
        decreases rlen - i,
    {
        if path.get_char(i) != root.get_char(i) {
            proof {
                assert(path@.take(rlen as int)[i as int] != root@[i as int]);
            }
            let mut r = String::new();
            r.append(path);
            return r;
        }
        i = i + 1;
    }
    if path.get_char(rlen) != '/' {
        let mut r = String::new();
        r.append(path);
        return r;
    }
    proof {
        assert(path@.take(rlen as int) =~= root@);
    }
    let mut rest: Vec<char> = Vec::new();
    let mut j: usize = rlen + 1;
    while j < plen
        invariant
            rlen + 1 <= j <= plen,
            plen == path@.len(),
            rest@ =~= path@.subrange(rlen + 1, j as int),
        decreases plen - j,
    {
        rest.push(path.get_char(j));
        j = j + 1;
    }
    proof {
        assert(rest@ =~= path@.skip(rlen + 1));
    }
    chars_to_string(&rest)
}

/// Hash every file matching a check's glob patterns.
///
/// Patterns expand relative to the project root; overlapping patterns hash
/// a file once; only regular files count.  On success the combined hash is
/// the digest of the sorted listing, so it depends on the set of
/// (path, contents) pairs alone, not on enumeration order.
pub fn compute_check_hash(project_root: &str, cache_paths: &Vec<String>) -> (r: Result<
    HashResult,
    HashError,
>)
    ensures
        r matches Ok(h) ==> h.file_hashes.wf() && h.combined_hash@ == combined_hash_of(
            h.file_hashes.entries_view(),
        ),
        cache_paths@.len() == 0 ==> r is Ok,
{
    let mut files = StrMap::new();
    let mut pi: usize = 0;
    while pi < cache_paths.len()
        invariant
            files.wf(),
        decreases cache_paths.len() - pi,
    {
        let pattern = &cache_paths[pi];
        let full = join_path(project_root, pattern.as_str());
        match glob_paths(full.as_str()) {
            Err(GlobFailure::Pattern) => {
                return Err(HashError::InvalidPattern { pattern: pattern.clone() });
            },
            Err(GlobFailure::Entry) => {
                return Err(HashError::PatternRead { pattern: pattern.clone() });
            },
            Ok(paths) => {
                let mut ei: usize = 0;
                while ei < paths.len()
                    invariant
                        files.wf(),
                        cache_paths@.len() > 0,
                    decreases paths.len() - ei,
                {
                    let p = &paths[ei];
                    if path_is_file(p.as_str()) {
                        let rel = strip_path_prefix(p.as_str(), project_root);
                        if !files.contains_key(rel.as_str()) {
                            match hash_file_hex(p.as_str()) {
                                Ok(h) => {
                                    files.insert(rel, h);
                                },
                                Err(_) => {
                                    return Err(HashError::FileRead { path: p.clone() });
                                },
                            }
                        }
                    }
                    ei = ei + 1;
                }
            },
        }
        pi = pi + 1;
    }
    let combined = combine_file_hashes(&files);
    Ok(HashResult { combined_hash: combined, file_hashes: files })
}

/// The line reporting an added file.
pub open spec fn added_line(k: Seq<char>) -> Seq<char> {
    seq!['+', ' '] + k
}

/// The line reporting a deleted file.
pub open spec fn deleted_line(k: Seq<char>) -> Seq<char> {
    seq!['-', ' '] + k
}

/// The line reporting a modified file.
pub open spec fn modified_line(k: Seq<char>) -> Seq<char> {
    seq!['M', ' '] + k
}

/// Whether a line belongs in the report of the differences between two
/// file listings: `+` for a path only in the new one, `-` for a path only
/// in the old one, `M` for a path in both whose hash changed.
pub open spec fn is_change_line(
    old_m: Map<Seq<char>, Seq<char>>,
    new_m: Map<Seq<char>, Seq<char>>,
    l: Seq<char>,
) -> bool {
    l.len() >= 2 && l[1] == ' ' && {
        let k = l.skip(2);
        if l[0] == '+' {
            new_m.contains_key(k) && !old_m.contains_key(k)
        } else if l[0] == '-' {
            old_m.contains_key(k) && !new_m.contains_key(k)
        } else if l[0] == 'M' {
            old_m.contains_key(k) && new_m.contains_key(k) && old_m[k] != new_m[k]
        } else {
            false
        }
    }
}

/// The views of a sequence of strings.
pub open spec fn views_of(v: Seq<String>) -> Seq<Seq<char>> {
    v.map_values(|s: String| s@)
}

/// Whether a sequence of lines holds one line.
pub open spec fn seq_has(vs: Seq<Seq<char>>, l: Seq<char>) -> bool {
    exists|i: int| 0 <= i < vs.len() && vs[i] == l
}

/// Whether lines are strictly sorted.
pub open spec fn lines_sorted(vs: Seq<Seq<char>>) -> bool {
    forall|i: int, j: int| 0 <= i < j < vs.len() ==> lex_lt(#[trigger] vs[i], #[trigger] vs[j])
}

/// Put a string into a sorted vector, keeping it sorted; a string already
/// present stays single.
fn insert_string_sorted(v: &mut Vec<String>, s: String)
    requires
        lines_sorted(views_of(old(v)@)),
    ensures
        lines_sorted(views_of(final(v)@)),
        forall|l: Seq<char>| #[trigger]
            seq_has(views_of(final(v)@), l) == (seq_has(views_of(old(v)@), l) || l == s@),
{
    let ghost s0 = views_of(v@);
    let n = v.len();
    let mut i: usize = 0;
    while i < n && str_lt(v[i].as_str(), s.as_str())
        invariant
            lines_sorted(s0),
            views_of(v@) == s0,
            i <= n,
            n == s0.len(),
            forall|j: int| 0 <= j < i ==> lex_lt(#[trigger] s0[j], s@),
        decreases n - i,
    {
        i = i + 1;
    }
    if i < n && str_eq(v[i].as_str(), s.as_str()) {
        proof {
            assert(seq_has(s0, s@)) by {
                assert(s0[i as int] == s@);
            }
            assert forall|l: Seq<char>| #[trigger]
                seq_has(views_of(v@), l) == (seq_has(s0, l) || l == s@) by {}
        }
        return ;
    }
    proof {
        if i < n {
            lemma_lex_lt_connex(s0[i as int], s@);
            assert(lex_lt(s@, s0[i as int]));
        }
    }
    v.insert(i, s);
    proof {
        let s1 = views_of(v@);
        let ki = i as int;
        assert(s1.len() == s0.len() + 1);
        assert forall|j: int| 0 <= j < s1.len() implies s1[j] == (if j < ki {
            s0[j]
        } else if j == ki {
            s@
        } else {
            s0[j - 1]
        }) by {}
        assert forall|x: int, y: int| 0 <= x < y < s1.len() implies lex_lt(
            #[trigger] s1[x],
            #[trigger] s1[y],
        ) by {
            if y > ki {
                assert(y - 1 >= ki && y - 1 < s0.len());
                assert(lex_lt(s@, s0[ki]));
                if y - 1 > ki {
                    lemma_lex_lt_transitive(s@, s0[ki], s0[y - 1]);
                }
                assert(lex_lt(s@, s0[y - 1]));
                if x < ki {
                    lemma_lex_lt_transitive(s0[x], s@, s0[y - 1]);
                }
            }
        }
        assert forall|l: Seq<char>| #[trigger]
            seq_has(s1, l) == (seq_has(s0, l) || l == s@) by {
            if seq_has(s1, l) {
                let p = choose|p: int| 0 <= p < s1.len() && s1[p] == l;
                if p < ki {
                    assert(s0[p] == l);
                } else if p > ki {
                    assert(s0[p - 1] == l);
                }
            }
            if seq_has(s0, l) {
                let p = choose|p: int| 0 <= p < s0.len() && s0[p] == l;
                if p < ki {
                    assert(s1[p] == l);
                } else {
                    assert(s1[p + 1] == l);
                }
            }
            if l == s@ {
                assert(s1[ki] == l);
            }
        }
    }
}

/// Compare two file listings and report every added, deleted, and modified
/// path, sorted.
pub fn find_changed_files(old_hashes: &StrMap, new_hashes: &StrMap) -> (r: Vec<String>)
    requires
        old_hashes.wf(),
        new_hashes.wf(),
    ensures
        lines_sorted(views_of(r@)),
        forall|l: Seq<char>| #[trigger]
            seq_has(views_of(r@), l) == is_change_line(old_hashes@, new_hashes@, l),
{
    let ghost om = old_hashes@;
    let ghost nm = new_hashes@;
    let ghost nv = new_hashes.entries_view();
    let ghost ov = old_hashes.entries_view();
    let mut out: Vec<String> = Vec::new();
    proof {
        reveal_strlit("+ ");
        reveal_strlit("- ");
        reveal_strlit("M ");
    }
    let n = new_hashes.len();
    let mut i: usize = 0;
    while i < n
        invariant
            old_hashes.wf(),
            new_hashes.wf(),
            om == old_hashes@,
            nm == new_hashes@,
            nv == new_hashes.entries_view(),
            i <= n,
            n == nv.len(),
            lines_sorted(views_of(out@)),
            forall|l: Seq<char>| #[trigger]
                seq_has(views_of(out@), l) == (is_change_line(om, nm, l) && l.len() >= 2 && (l[0]
                    == '+' || l[0] == 'M') && has_key(nv.take(i as int), l.skip(2))),
        decreases n - i,
    {
        let path = new_hashes.key_at(i).clone();
        let new_val = new_hashes.val_at(i);
        let ghost k = path@;
        proof {
            reveal_strlit("+ ");
            reveal_strlit("M ");
            assert(nv[i as int].0 == k);
            assert(has_key(nv, k));
            lemma_key_index(nv, k);
            assert(nm.contains_key(k) && nm[k] == nv[i as int].1);
        }
        let line: Option<String> = match old_hashes.get(path.as_str()) {
            None => {
                let mut l = String::new();
                l.append("+ ");
                l.append(path.as_str());
                proof {
                    assert(l@ =~= added_line(k));
                }
                Some(l)
            },
            Some(old_val) => {
                if !str_eq(old_val.as_str(), new_val.as_str()) {
                    let mut l = String::new();
                    l.append("M ");
                    l.append(path.as_str());
                    proof {
                        assert(l@ =~= modified_line(k));
                    }
                    Some(l)
                } else {
                    None
                }
            },
        };
        match line {
            Some(l) => {
                let ghost lv = l@;
                proof {
                    assert(lv.skip(2) =~= k);
                    assert(is_change_line(om, nm, lv));
                }
                insert_string_sorted(&mut out, l);
                proof {
                    assert forall|x: Seq<char>| #[trigger]
                        seq_has(views_of(out@), x) == (is_change_line(om, nm, x) && x.len() >= 2 && (
                        x[0] == '+' || x[0] == 'M') && has_key(nv.take(i + 1), x.skip(2))) by {
                        if x == lv {
                            assert(has_key(nv.take(i + 1), k)) by {
                                assert(nv.take(i + 1)[i as int].0 == k);
                            }
                        } else {
                            assert(has_key(nv.take(i + 1), x.skip(2)) == (has_key(
                                nv.take(i as int),
                                x.skip(2),
                            ) || x.skip(2) == k)) by {
                                if has_key(nv.take(i + 1), x.skip(2)) {
                                    let p = choose|p: int|
                                        0 <= p < nv.take(i + 1).len() && (#[trigger] nv.take(
                                            i + 1,
                                        )[p]).0 == x.skip(2);
                                    if p < i {
                                        assert(nv.take(i as int)[p].0 == x.skip(2));
                                    }
                                }
                                if has_key(nv.take(i as int), x.skip(2)) {
                                    let p = choose|p: int|
                                        0 <= p < i && (#[trigger] nv.take(i as int)[p]).0 == x.skip(
                                            2,
                                        );
                                    assert(nv.take(i + 1)[p].0 == x.skip(2));
                                }
                                if x.skip(2) == k {
                                    assert(nv.take(i + 1)[i as int].0 == k);
                                }
                            }
                            if x.len() >= 2 && (x[0] == '+' || x[0] == 'M') && x.skip(2) == k
                                && is_change_line(om, nm, x) {
                                // A line for this key with the right tag is
                                // exactly the line just inserted.
                                assert(x =~= lv);
                            }
                        }
                    }
                }
            },
            None => {
                proof {
                    assert forall|x: Seq<char>| #[trigger]
                        seq_has(views_of(out@), x) == (is_change_line(om, nm, x) && x.len() >= 2 && (
                        x[0] == '+' || x[0] == 'M') && has_key(nv.take(i + 1), x.skip(2))) by {
                        assert(has_key(nv.take(i + 1), x.skip(2)) == (has_key(
                            nv.take(i as int),
                            x.skip(2),
                        ) || x.skip(2) == k)) by {
                            if has_key(nv.take(i + 1), x.skip(2)) {
                                let p = choose|p: int|
                                    0 <= p < nv.take(i + 1).len() && (#[trigger] nv.take(
                                        i + 1,
                                    )[p]).0 == x.skip(2);
                                if p < i {
                                    assert(nv.take(i as int)[p].0 == x.skip(2));
                                }
                            }
                            if has_key(nv.take(i as int), x.skip(2)) {
                                let p = choose|p: int|
                                    0 <= p < i && (#[trigger] nv.take(i as int)[p]).0 == x.skip(2);
                                assert(nv.take(i + 1)[p].0 == x.skip(2));
                            }
                            if x.skip(2) == k {
                                assert(nv.take(i + 1)[i as int].0 == k);
                            }
                        }
                        if x.len() >= 2 && x[1] == ' ' && (x[0] == '+' || x[0] == 'M') && x.skip(2)
                            == k {
                            // The key is unchanged, so no line reports it.
                            assert(!is_change_line(om, nm, x));
                        }
                    }
                }
            },
        }
        i = i + 1;
    }
    proof {
        assert(nv.take(n as int) =~= nv);
    }
    // Deleted files: in the old listing, gone from the new one.
    let m = old_hashes.len();
    let mut j: usize = 0;
    while j < m
        invariant
            old_hashes.wf(),
            new_hashes.wf(),
            om == old_hashes@,
            nm == new_hashes@,
            ov == old_hashes.entries_view(),
            nv == new_hashes.entries_view(),
            j <= m,
            m == ov.len(),
            lines_sorted(views_of(out@)),
            forall|l: Seq<char>| #[trigger]
                seq_has(views_of(out@), l) == (is_change_line(om, nm, l) && l.len() >= 2 && (l[0]
                    == '+' || l[0] == 'M' || (l[0] == '-' && has_key(ov.take(j as int), l.skip(2))))
                    && (l[0] == '-' || has_key(nv, l.skip(2)))),
        decreases m - j,
    {
        let path = old_hashes.key_at(j).clone();
        let ghost k = path@;
        proof {
            reveal_strlit("- ");
            assert(ov[j as int].0 == k);
            assert(has_key(ov, k));
            lemma_key_index(ov, k);
            assert(om.contains_key(k));
        }
        if !new_hashes.contains_key(path.as_str()) {
            let mut l = String::new();
            l.append("- ");
            l.append(path.as_str());
            let ghost lv = l@;
            proof {
                assert(lv =~= deleted_line(k));
                assert(lv.skip(2) =~= k);
                assert(is_change_line(om, nm, lv));
            }
            insert_string_sorted(&mut out, l);
            proof {
                assert forall|x: Seq<char>| #[trigger]
                    seq_has(views_of(out@), x) == (is_change_line(om, nm, x) && x.len() >= 2 && (x[0]
                        == '+' || x[0] == 'M' || (x[0] == '-' && has_key(
                        ov.take(j + 1),
                        x.skip(2),
                    ))) && (x[0] == '-' || has_key(nv, x.skip(2)))) by {
                    if x == lv {
                        assert(has_key(ov.take(j + 1), k)) by {
                            assert(ov.take(j + 1)[j as int].0 == k);
                        }
                    } else {
                        assert(has_key(ov.take(j + 1), x.skip(2)) == (has_key(
                            ov.take(j as int),
                            x.skip(2),
                        ) || x.skip(2) == k)) by {
                            if has_key(ov.take(j + 1), x.skip(2)) {
                                let p = choose|p: int|
                                    0 <= p < ov.take(j + 1).len() && (#[trigger] ov.take(
                                        j + 1,
                                    )[p]).0 == x.skip(2);
                                if p < j {
                                    assert(ov.take(j as int)[p].0 == x.skip(2));
                                }
                            }
                            if has_key(ov.take(j as int), x.skip(2)) {
                                let p = choose|p: int|
                                    0 <= p < j && (#[trigger] ov.take(j as int)[p]).0 == x.skip(2);
                                assert(ov.take(j + 1)[p].0 == x.skip(2));
                            }
                            if x.skip(2) == k {
                                assert(ov.take(j + 1)[j as int].0 == k);
                            }
                        }
                        if x.len() >= 2 && x[0] == '-' && x.skip(2) == k && is_change_line(
                            om,
                            nm,
                            x,
                        ) {
                            assert(x =~= lv);
                        }
                    }
                }
            }
        } else {
            proof {
                assert forall|x: Seq<char>| #[trigger]
                    seq_has(views_of(out@), x) == (is_change_line(om, nm, x) && x.len() >= 2 && (x[0]
                        == '+' || x[0] == 'M' || (x[0] == '-' && has_key(
                        ov.take(j + 1),
                        x.skip(2),
                    ))) && (x[0] == '-' || has_key(nv, x.skip(2)))) by {
                    assert(has_key(ov.take(j + 1), x.skip(2)) == (has_key(
                        ov.take(j as int),
                        x.skip(2),
                    ) || x.skip(2) == k)) by {
                        if has_key(ov.take(j + 1), x.skip(2)) {
                            let p = choose|p: int|
                                0 <= p < ov.take(j + 1).len() && (#[trigger] ov.take(j + 1)[p]).0
                                    == x.skip(2);
                            if p < j {
                                assert(ov.take(j as int)[p].0 == x.skip(2));
                            }
                        }
                        if has_key(ov.take(j as int), x.skip(2)) {
                            let p = choose|p: int|
                                0 <= p < j && (#[trigger] ov.take(j as int)[p]).0 == x.skip(2);
                            assert(ov.take(j + 1)[p].0 == x.skip(2));
                        }
                        if x.skip(2) == k {
                            assert(ov.take(j + 1)[j as int].0 == k);
                        }
                    }
                    if x.len() >= 2 && x[1] == ' ' && x[0] == '-' && x.skip(2) == k {
                        // The key is still present, so no deletion line
                        // reports it.
                        assert(nm.contains_key(k));
                        assert(!is_change_line(om, nm, x));
                    }
                }
            }
        }
        j = j + 1;
    }
    proof {
        assert(ov.take(m as int) =~= ov);
        assert forall|l: Seq<char>| #[trigger]
            seq_has(views_of(out@), l) == is_change_line(om, nm, l) by {
            if is_change_line(om, nm, l) {
                let k = l.skip(2);
                if l[0] == '+' || l[0] == 'M' {
                    assert(nm.contains_key(k));
                    assert(has_key(nv, k));
                } else if l[0] == '-' {
                    assert(om.contains_key(k));
                    assert(has_key(ov, k));
                }
            }
        }
    }
    out
}

/// Comparing a listing with itself reports nothing.
pub proof fn lemma_changed_files_identical(m: Map<Seq<char>, Seq<char>>, vs: Seq<Seq<char>>)
    requires
        forall|l: Seq<char>| #[trigger] seq_has(vs, l) == is_change_line(m, m, l),
    ensures
        vs.len() == 0,
{
    if vs.len() > 0 {
        assert(seq_has(vs, vs[0])) by {
            assert(vs[0int] == vs[0]);
        }
        assert(is_change_line(m, m, vs[0]));
        assert(false);
    }
}

/// Comparing disjoint listings reports every old path deleted and every
/// new path added, and nothing else.
pub proof fn lemma_changed_files_disjoint(
    om: Map<Seq<char>, Seq<char>>,
    nm: Map<Seq<char>, Seq<char>>,
    vs: Seq<Seq<char>>,
)
    requires
        forall|l: Seq<char>| #[trigger] seq_has(vs, l) == is_change_line(om, nm, l),
        forall|k: Seq<char>| !(om.contains_key(k) && nm.contains_key(k)),
    ensures
        forall|k: Seq<char>| om.contains_key(k) ==> seq_has(vs, #[trigger] deleted_line(k)),
        forall|k: Seq<char>| nm.contains_key(k) ==> seq_has(vs, #[trigger] added_line(k)),
        forall|i: int|
            0 <= i < vs.len() ==> (#[trigger] vs[i] == deleted_line(vs[i].skip(2)) && om.contains_key(
                vs[i].skip(2),
            )) || (vs[i] == added_line(vs[i].skip(2)) && nm.contains_key(vs[i].skip(2))),
{
    assert forall|k: Seq<char>| om.contains_key(k) implies seq_has(
        vs,
        #[trigger] deleted_line(k),
    ) by {
        assert(deleted_line(k).skip(2) =~= k);
        assert(is_change_line(om, nm, deleted_line(k)));
    }
    assert forall|k: Seq<char>| nm.contains_key(k) implies seq_has(vs, #[trigger] added_line(k)) by {
        assert(added_line(k).skip(2) =~= k);
        assert(is_change_line(om, nm, added_line(k)));
    }
    assert forall|i: int| 0 <= i < vs.len() implies (#[trigger] vs[i] == deleted_line(
        vs[i].skip(2),
    ) && om.contains_key(vs[i].skip(2))) || (vs[i] == added_line(vs[i].skip(2)) && nm.contains_key(
        vs[i].skip(2),
    )) by {
        assert(seq_has(vs, vs[i])) by {
            assert(vs[i] == vs[i]);
        }
        assert(is_change_line(om, nm, vs[i]));
        let l = vs[i];
        if l[0] == '+' {
            assert(l =~= added_line(l.skip(2)));
        } else if l[0] == '-' {
            assert(l =~= deleted_line(l.skip(2)));
        } else {
            assert(om.contains_key(l.skip(2)) && nm.contains_key(l.skip(2)));
            assert(false);
        }
    }
}

} // verus!
