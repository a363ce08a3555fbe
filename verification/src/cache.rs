//! The lock store: the per-check cache of configuration hash, content
//! hash, per-file hashes and metadata, and the staleness decision made
//! from it.

use vstd::prelude::*;

use crate::metadata::MetadataValue;
use crate::strmap::StrMap;
use crate::text::lemma_lex_lt_connex;
use crate::text::lemma_lex_lt_irreflexive;
use crate::text::lemma_lex_lt_transitive;
use crate::text::lex_lt;
use crate::text::str_eq;
use crate::text::str_lt;

verus! {

/// The lock-file format version this engine reads and writes; a lock file
/// carrying any other version is treated as absent.
pub const CACHE_VERSION: u32 = 4;

/// The cached state of one check.
pub struct CheckCache {
    /// The configuration hash of the last attempted run; absent before
    /// any attempt.
    pub config_hash: Option<String>,
    /// The combined content hash; present exactly when the last run
    /// succeeded.
    pub content_hash: Option<String>,
    /// The per-file listing of the last run: per-file checks read their
    /// partial progress from it, and a content change is explained from
    /// it file by file.
    pub file_hashes: StrMap,
    /// Metadata from the last successful run.
    pub metadata: Vec<(String, MetadataValue)>,
}

/// The computed status of one check.
#[derive(Debug, PartialEq, Eq)]
pub enum VerificationStatus {
    /// The check passed and nothing has changed since.
    Verified,
    /// The check needs to run.
    Unverified { reason: UnverifiedReason },
    /// The check tracks no files, so freshness cannot be decided.
    Untracked,
}

/// Why a check is unverified.
#[derive(Debug, PartialEq, Eq)]
pub enum UnverifiedReason {
    /// Tracked files changed.
    FilesChanged { changed_files: Vec<String> },
    /// A dependency is unverified.
    DependencyUnverified { dependency: String },
    /// The check's definition changed.
    ConfigChanged,
    /// No successful run is recorded.
    NeverRun,
}

/// Whether cache entries are sorted strictly by name.
pub open spec fn cache_sorted(s: Seq<(String, CheckCache)>) -> bool {
    forall|i: int, j: int|
        0 <= i < j < s.len() ==> lex_lt((#[trigger] s[i]).0@, (#[trigger] s[j]).0@)
}

/// Whether some entry carries the name.
pub open spec fn cache_has(s: Seq<(String, CheckCache)>, k: Seq<char>) -> bool {
    exists|i: int| 0 <= i < s.len() && (#[trigger] s[i]).0@ == k
}

/// The position of the entry carrying the name.
pub open spec fn cache_index(s: Seq<(String, CheckCache)>, k: Seq<char>) -> int {
    choose|i: int| 0 <= i < s.len() && (#[trigger] s[i]).0@ == k
}

/// The entry carrying the name.
pub open spec fn cache_at(s: Seq<(String, CheckCache)>, k: Seq<char>) -> CheckCache {
    s[cache_index(s, k)].1
}

/// In a sorted list the position of a present name is unique and
/// `cache_index` finds it.
pub proof fn lemma_cache_index(s: Seq<(String, CheckCache)>, k: Seq<char>)
    requires
        cache_sorted(s),
        cache_has(s, k),
    ensures
        0 <= cache_index(s, k) < s.len(),
        s[cache_index(s, k)].0@ == k,
        forall|i: int| 0 <= i < s.len() && (#[trigger] s[i]).0@ == k ==> i == cache_index(s, k),
{
    assert forall|i: int, j: int|
        0 <= i < s.len() && 0 <= j < s.len() && i != j implies (#[trigger] s[i]).0@ != (
    #[trigger] s[j]).0@ by {
        if i < j {
            lemma_lex_lt_irreflexive(s[i].0@);
        } else {
            lemma_lex_lt_irreflexive(s[j].0@);
        }
    }
}

/// Dropping the entry at a position keeps the rest intact: the removed
/// name is gone, every other name keeps its entry.
pub proof fn lemma_cache_remove(s: Seq<(String, CheckCache)>, k: Seq<char>)
    requires
        cache_sorted(s),
        cache_has(s, k),
    ensures
        cache_sorted(s.remove(cache_index(s, k))),
        !cache_has(s.remove(cache_index(s, k)), k),
        forall|x: Seq<char>|
            x != k ==> #[trigger] cache_has(s.remove(cache_index(s, k)), x) == cache_has(s, x),
        forall|x: Seq<char>|
            x != k && #[trigger] cache_has(s, x) ==> cache_at(s.remove(cache_index(s, k)), x)
                == cache_at(s, x),
{
    lemma_cache_index(s, k);
    let ki = cache_index(s, k);
    let t = s.remove(ki);
    assert forall|a: int, b: int| 0 <= a < b < t.len() implies lex_lt(
        (#[trigger] t[a]).0@,
        (#[trigger] t[b]).0@,
    ) by {
        let a0: int = if a < ki {
            a
        } else {
            a + 1
        };
        let b0: int = if b < ki {
            b
        } else {
            b + 1
        };
        assert(t[a] == s[a0] && t[b] == s[b0]);
    }
    assert(!cache_has(t, k)) by {
        if cache_has(t, k) {
            let p = choose|p: int| 0 <= p < t.len() && (#[trigger] t[p]).0@ == k;
            if p < ki {
                assert(s[p].0@ == k);
                assert(p == ki);
            } else {
                assert(s[p + 1].0@ == k);
                assert(p + 1 == ki);
            }
            assert(false);
        }
    }
    assert forall|x: Seq<char>| x != k implies #[trigger] cache_has(t, x) == cache_has(s, x) by {
        if cache_has(t, x) {
            let p = choose|p: int| 0 <= p < t.len() && (#[trigger] t[p]).0@ == x;
            if p < ki {
                assert(s[p].0@ == x);
            } else {
                assert(s[p + 1].0@ == x);
            }
        }
        if cache_has(s, x) {
            let p = choose|p: int| 0 <= p < s.len() && (#[trigger] s[p]).0@ == x;
            assert(p != ki);
            if p < ki {
                assert(t[p].0@ == x);
            } else {
                assert(t[p - 1].0@ == x);
            }
        }
    }
    assert forall|x: Seq<char>| x != k && #[trigger] cache_has(s, x) implies cache_at(t, x)
        == cache_at(s, x) by {
        lemma_cache_index(s, x);
        let p = cache_index(s, x);
        assert(p != ki);
        assert(cache_sorted(t));
        if p < ki {
            assert(t[p] == s[p]);
            assert(cache_has(t, x)) by {
                assert(t[p].0@ == x);
            }
            lemma_cache_index(t, x);
            assert(cache_index(t, x) == p);
        } else {
            assert(t[p - 1] == s[p]);
            assert(cache_has(t, x)) by {
                assert(t[p - 1].0@ == x);
            }
            lemma_cache_index(t, x);
            assert(cache_index(t, x) == p - 1);
        }
    }
}

/// A recorded success under the same configuration and content: what
/// `Verified` means.
pub open spec fn verified_in_cache(
    s: Seq<(String, CheckCache)>,
    name: Seq<char>,
    content: Seq<char>,
    config: Seq<char>,
) -> bool {
    cache_has(s, name) && (cache_at(s, name).config_hash matches Some(h) && h@ == config) && (
    cache_at(s, name).content_hash matches Some(c) && c@ == content)
}

/// No attempt, or no recorded success: what `NeverRun` means.
pub open spec fn never_run_in_cache(
    s: Seq<(String, CheckCache)>,
    name: Seq<char>,
    config: Seq<char>,
) -> bool {
    !cache_has(s, name) || cache_at(s, name).config_hash is None || ((cache_at(
        s,
        name,
    ).config_hash matches Some(h) && h@ == config) && cache_at(s, name).content_hash is None)
}

/// A recorded attempt under another configuration: what `ConfigChanged`
/// means.
pub open spec fn config_changed_in_cache(
    s: Seq<(String, CheckCache)>,
    name: Seq<char>,
    config: Seq<char>,
) -> bool {
    cache_has(s, name) && (cache_at(s, name).config_hash matches Some(h) && h@ != config)
}

/// A recorded success whose content hash no longer matches: what
/// `FilesChanged` means.
pub open spec fn files_changed_in_cache(
    s: Seq<(String, CheckCache)>,
    name: Seq<char>,
    content: Seq<char>,
    config: Seq<char>,
) -> bool {
    cache_has(s, name) && (cache_at(s, name).config_hash matches Some(h) && h@ == config) && (
    cache_at(s, name).content_hash matches Some(c) && c@ != content)
}

/// Every entry's file map is well formed.
pub open spec fn cache_file_maps_wf(s: Seq<(String, CheckCache)>) -> bool {
    forall|k: Seq<char>| #[trigger] cache_has(s, k) ==> cache_at(s, k).file_hashes.wf()
}

/// The lock store held in memory.
pub struct CacheState {
    /// The format version; a loaded file with another version reads as
    /// empty.
    pub version: u32,
    /// One entry per check name, sorted by name.
    pub checks: Vec<(String, CheckCache)>,
}

/// Put one entry in, keeping names sorted; an existing name gets the new
/// entry.
fn cache_insert(checks: &mut Vec<(String, CheckCache)>, k: String, v: CheckCache)
    requires
        cache_sorted(old(checks)@),
    ensures
        cache_sorted(final(checks)@),
        forall|x: Seq<char>| #[trigger]
            cache_has(final(checks)@, x) == (cache_has(old(checks)@, x) || x == k@),
        cache_at(final(checks)@, k@) == v,
        forall|x: Seq<char>|
            x != k@ && #[trigger] cache_has(old(checks)@, x) ==> cache_at(final(checks)@, x)
                == cache_at(old(checks)@, x),
{
    let ghost s0 = checks@;
    let n = checks.len();
    let mut i: usize = 0;
    while i < n && str_lt(checks[i].0.as_str(), k.as_str())
        invariant
            cache_sorted(s0),
            checks@ == s0,
            i <= n,
            n == s0.len(),
            forall|j: int| 0 <= j < i ==> lex_lt((#[trigger] s0[j]).0@, k@),
        decreases n - i,
    {
        i = i + 1;
    }
    if i < n && str_eq(checks[i].0.as_str(), k.as_str()) {
        checks[i].1 = v;
        proof {
            let s1 = checks@;
            assert(s1 =~= s0.update(i as int, (s0[i as int].0, v)));
            assert forall|x: int, y: int| 0 <= x < y < s1.len() implies lex_lt(
                (#[trigger] s1[x]).0@,
                (#[trigger] s1[y]).0@,
            ) by {
                assert(s1[x].0 == s0[x].0);
                assert(s1[y].0 == s0[y].0);
            }
            assert forall|x: Seq<char>| #[trigger]
                cache_has(s1, x) == (cache_has(s0, x) || x == k@) by {
                if cache_has(s1, x) {
                    let p = choose|p: int| 0 <= p < s1.len() && (#[trigger] s1[p]).0@ == x;
                    assert(s0[p].0@ == x);
                }
                if cache_has(s0, x) {
                    let p = choose|p: int| 0 <= p < s0.len() && (#[trigger] s0[p]).0@ == x;
                    assert(s1[p].0@ == x);
                }
                if x == k@ {
                    assert(s1[i as int].0@ == x);
                }
            }
            lemma_cache_index(s1, k@);
            assert(s1[i as int].0@ == k@);
            assert(cache_index(s1, k@) == i as int);
            assert(cache_at(s1, k@) == v);
            assert forall|x: Seq<char>|
                x != k@ && #[trigger] cache_has(s0, x) implies cache_at(s1, x) == cache_at(
                s0,
                x,
            ) by {
                lemma_cache_index(s0, x);
                let p = cache_index(s0, x);
                assert(p != i as int) by {
                    assert(s0[i as int].0@ == k@);
                }
                assert(s1[p] == s0[p]);
                assert(cache_has(s1, x)) by {
                    assert(s1[p].0@ == x);
                }
                lemma_cache_index(s1, x);
                assert(cache_index(s1, x) == p);
            }
        }
    } else {
        proof {
            if i < n {
                lemma_lex_lt_connex(s0[i as int].0@, k@);
                assert(lex_lt(k@, s0[i as int].0@));
            }
        }
        checks.insert(i, (k, v));
        proof {
            let s1 = checks@;
            let ki = i as int;
            assert forall|j: int| 0 <= j < s1.len() implies s1[j] == (if j < ki {
                s0[j]
            } else if j == ki {
                s1[ki]
            } else {
                s0[j - 1]
            }) by {}
            assert(s1[ki].0@ == k@ && s1[ki].1 == v);
            assert forall|x: int, y: int| 0 <= x < y < s1.len() implies lex_lt(
                (#[trigger] s1[x]).0@,
                (#[trigger] s1[y]).0@,
            ) by {
                if y > ki {
                    assert(y - 1 >= ki && y - 1 < s0.len());
                    assert(lex_lt(k@, s0[ki].0@));
                    if y - 1 > ki {
                        lemma_lex_lt_transitive(k@, s0[ki].0@, s0[y - 1].0@);
                    }
                    assert(lex_lt(k@, s0[y - 1].0@));
                    if x < ki {
                        lemma_lex_lt_transitive(s0[x].0@, k@, s0[y - 1].0@);
                    }
                }
            }
            assert forall|x: Seq<char>| #[trigger]
                cache_has(s1, x) == (cache_has(s0, x) || x == k@) by {
                if cache_has(s1, x) {
                    let p = choose|p: int| 0 <= p < s1.len() && (#[trigger] s1[p]).0@ == x;
                    if p < ki {
                        assert(s0[p].0@ == x);
                    } else if p > ki {
                        assert(s0[p - 1].0@ == x);
                    }
                }
                if cache_has(s0, x) {
                    let p = choose|p: int| 0 <= p < s0.len() && (#[trigger] s0[p]).0@ == x;
                    if p < ki {
                        assert(s1[p].0@ == x);
                    } else {
                        assert(s1[p + 1].0@ == x);
                    }
                }
                if x == k@ {
                    assert(s1[ki].0@ == x);
                }
            }
            lemma_cache_index(s1, k@);
            assert(cache_index(s1, k@) == ki);
            assert(cache_at(s1, k@) == v);
            assert forall|x: Seq<char>|
                x != k@ && #[trigger] cache_has(s0, x) implies cache_at(s1, x) == cache_at(
                s0,
                x,
            ) by {
                lemma_cache_index(s0, x);
                let p = cache_index(s0, x);
                if p < ki {
                    assert(s1[p] == s0[p]);
                    assert(cache_has(s1, x)) by {
                        assert(s1[p].0@ == x);
                    }
                    lemma_cache_index(s1, x);
                    assert(cache_index(s1, x) == p);
                } else {
                    assert(s1[p + 1] == s0[p]);
                    assert(cache_has(s1, x)) by {
                        assert(s1[p + 1].0@ == x);
                    }
                    lemma_cache_index(s1, x);
                    assert(cache_index(s1, x) == p + 1);
                }
            }
        }
    }
}

/// Take the named entry out, if present.
fn take_entry(checks: &mut Vec<(String, CheckCache)>, name: &str) -> (r: Option<
    (String, CheckCache),
>)
    requires
        cache_sorted(old(checks)@),
    ensures
        cache_sorted(final(checks)@),
        match r {
            Some(e) => cache_has(old(checks)@, name@) && e.0@ == name@ && e.1 == cache_at(
                old(checks)@,
                name@,
            ) && final(checks)@ == old(checks)@.remove(cache_index(old(checks)@, name@)),
            None => !cache_has(old(checks)@, name@) && final(checks)@ == old(checks)@,
        },
{
    let n = checks.len();
    let mut i: usize = 0;
    while i < n
        invariant
            cache_sorted(checks@),
            checks@ == old(checks)@,
            i <= n,
            n == checks@.len(),
            forall|j: int| 0 <= j < i ==> (#[trigger] checks@[j]).0@ != name@,
        decreases n - i,
    {
        if str_eq(checks[i].0.as_str(), name) {
            proof {
                assert(checks@[i as int].0@ == name@);
                lemma_cache_index(checks@, name@);
            }
            let e = checks.remove(i);
            return Some(e);
        }
        i = i + 1;
    }
    None
}

impl CacheState {
    /// Entries are sorted strictly by name.
    pub open spec fn wf(self) -> bool {
        cache_sorted(self.checks@)
    }

    /// A fresh, empty store at the current version.
    pub fn new() -> (r: CacheState)
        ensures
            r.wf(),
            r.version == CACHE_VERSION,
            r.checks@.len() == 0,
    {
        CacheState { version: CACHE_VERSION, checks: Vec::new() }
    }

    /// The cached entry of a check.
    pub fn get(&self, check_name: &str) -> (r: Option<&CheckCache>)
        requires
            self.wf(),
        ensures
            match r {
                Some(c) => cache_has(self.checks@, check_name@) && *c == cache_at(
                    self.checks@,
                    check_name@,
                ),
                None => !cache_has(self.checks@, check_name@),
            },
    {
        let n = self.checks.len();
        let mut i: usize = 0;
        while i < n
            invariant
                self.wf(),
                i <= n,
                n == self.checks@.len(),
                forall|j: int| 0 <= j < i ==> (#[trigger] self.checks@[j]).0@ != check_name@,
            decreases n - i,
        {
            if str_eq(self.checks[i].0.as_str(), check_name) {
                proof {
                    assert(self.checks@[i as int].0@ == check_name@);
                    lemma_cache_index(self.checks@, check_name@);
                }
                return Some(&self.checks[i].1);
            }
            i = i + 1;
        }
        None
    }

    /// Decide the status of a check from its current content and
    /// configuration hashes: never attempted or never succeeded reads
    /// `NeverRun`; an attempt under another configuration reads
    /// `ConfigChanged`; a success whose content hash moved reads
    /// `FilesChanged` with the list left for the caller to fill; a
    /// success matching both hashes reads `Verified`.
    pub fn check_staleness(
        &self,
        check_name: &str,
        current_content_hash: &str,
        current_config_hash: &str,
    ) -> (r: VerificationStatus)
        requires
            self.wf(),
        ensures
            (r is Verified) == verified_in_cache(
                self.checks@,
                check_name@,
                current_content_hash@,
                current_config_hash@,
            ),
            (r matches VerificationStatus::Unverified {
                reason: UnverifiedReason::NeverRun,
            }) == never_run_in_cache(self.checks@, check_name@, current_config_hash@),
            (r matches VerificationStatus::Unverified {
                reason: UnverifiedReason::ConfigChanged,
            }) == config_changed_in_cache(self.checks@, check_name@, current_config_hash@),
            (r matches VerificationStatus::Unverified {
                reason: UnverifiedReason::FilesChanged { changed_files },
            } && changed_files@.len() == 0) == files_changed_in_cache(
                self.checks@,
                check_name@,
                current_content_hash@,
                current_config_hash@,
            ),
            !(r is Untracked),
            !(r matches VerificationStatus::Unverified {
                reason: UnverifiedReason::DependencyUnverified { .. },
            }),
    {
        match self.get(check_name) {
            None => VerificationStatus::Unverified { reason: UnverifiedReason::NeverRun },
            Some(cached) => {
                match &cached.config_hash {
                    None => VerificationStatus::Unverified { reason: UnverifiedReason::NeverRun },
                    Some(stored_config) => {
                        if !str_eq(stored_config.as_str(), current_config_hash) {
                            VerificationStatus::Unverified {
                                reason: UnverifiedReason::ConfigChanged,
                            }
                        } else {
                            match &cached.content_hash {
                                None => VerificationStatus::Unverified {
                                    reason: UnverifiedReason::NeverRun,
                                },
                                Some(stored_hash) => {
                                    if str_eq(stored_hash.as_str(), current_content_hash) {
                                        VerificationStatus::Verified
                                    } else {
                                        let changed: Vec<String> = Vec::new();
                                        VerificationStatus::Unverified {
                                            reason: UnverifiedReason::FilesChanged {
                                                changed_files: changed,
                                            },
                                        }
                                    }
                                },
                            }
                        }
                    },
                }
            },
        }
    }

    /// Record one run.  A success stores the content hash, the metadata,
    /// and the file listing, so that a later content change can name the
    /// modified files.  A failure clears the content hash and the
    /// metadata but keeps the previous file listing, so per-file partial
    /// progress survives; the configuration hash is stored either way.
    pub fn update(
        &mut self,
        check_name: &str,
        success: bool,
        config_hash: String,
        content_hash: Option<String>,
        file_hashes: StrMap,
        metadata: Vec<(String, MetadataValue)>,
        per_file: bool,
    )
        requires
            old(self).wf(),
        ensures
            final(self).wf(),
            final(self).version == old(self).version,
            forall|x: Seq<char>| #[trigger]
                cache_has(final(self).checks@, x) == (cache_has(old(self).checks@, x) || x
                    == check_name@),
            forall|x: Seq<char>|
                x != check_name@ && #[trigger] cache_has(old(self).checks@, x) ==> cache_at(
                    final(self).checks@,
                    x,
                ) == cache_at(old(self).checks@, x),
            ({
                let e = cache_at(final(self).checks@, check_name@);
                &&& (e.config_hash matches Some(h) && h == config_hash)
                &&& e.content_hash == (if success {
                    content_hash
                } else {
                    Option::<String>::None
                })
                &&& (success ==> e.file_hashes == file_hashes)
                &&& (!success && cache_has(old(self).checks@, check_name@) ==> e.file_hashes
                    == cache_at(old(self).checks@, check_name@).file_hashes)
                &&& (!success && !cache_has(old(self).checks@, check_name@) ==> e.file_hashes.wf()
                    && e.file_hashes.entries_view().len() == 0)
                &&& e.metadata@ == (if success {
                    metadata@
                } else {
                    Seq::<(String, MetadataValue)>::empty()
                })
            }),
            cache_file_maps_wf(old(self).checks@) && (success ==> file_hashes.wf())
                ==> cache_file_maps_wf(final(self).checks@),
    {
        let taken = take_entry(&mut self.checks, check_name);
        proof {
            if cache_has(old(self).checks@, check_name@) {
                lemma_cache_remove(old(self).checks@, check_name@);
            }
        }
        let entry: CheckCache = if success {
            CheckCache { config_hash: Some(config_hash), content_hash, file_hashes, metadata }
        } else {
            let kept: StrMap = match taken {
                Some(e) => e.1.file_hashes,
                None => StrMap::new(),
            };
            CheckCache {
                config_hash: Some(config_hash),
                content_hash: None,
                file_hashes: kept,
                metadata: Vec::new(),
            }
        };
        let ghost entry_g = entry;
        let mut owned = String::new();
        owned.append(check_name);
        cache_insert(&mut self.checks, owned, entry);
        proof {
            let oldc = old(self).checks@;
            let ghost mid = if cache_has(oldc, check_name@) {
                oldc.remove(cache_index(oldc, check_name@))
            } else {
                oldc
            };
            if cache_has(oldc, check_name@) {
                lemma_cache_remove(oldc, check_name@);
            }
            assert forall|x: Seq<char>| #[trigger]
                cache_has(self.checks@, x) == (cache_has(oldc, x) || x == check_name@) by {
                assert(cache_has(self.checks@, x) == (cache_has(mid, x) || x == check_name@));
                if x != check_name@ {
                    assert(cache_has(mid, x) == cache_has(oldc, x));
                }
            }
            assert forall|x: Seq<char>|
                x != check_name@ && #[trigger] cache_has(oldc, x) implies cache_at(self.checks@, x)
                == cache_at(oldc, x) by {
                assert(cache_has(mid, x) == cache_has(oldc, x));
                assert(cache_at(self.checks@, x) == cache_at(mid, x));
                assert(cache_at(mid, x) == cache_at(oldc, x));
            }
            if cache_file_maps_wf(oldc) && (success ==> file_hashes.wf()) {
                assert forall|x: Seq<char>| #[trigger]
                    cache_has(self.checks@, x) implies cache_at(
                    self.checks@,
                    x,
                ).file_hashes.wf() by {
                    if x != check_name@ {
                        assert(cache_has(oldc, x));
                        assert(cache_at(self.checks@, x) == cache_at(oldc, x));
                    } else {
                        assert(cache_at(self.checks@, x) == entry_g);
                        if !success && cache_has(oldc, check_name@) {
                            assert(cache_has(oldc, check_name@));
                        }
                    }
                }
            }
        }
    }

    /// Record one passing file of a per-file check: put its hash into the
    /// entry's file map, creating the entry on first need.
    pub fn update_per_file_hash(
        &mut self,
        check_name: &str,
        config_hash: &str,
        file_path: &str,
        file_hash: String,
    )
        requires
            old(self).wf(),
            cache_has(old(self).checks@, check_name@) ==> cache_at(
                old(self).checks@,
                check_name@,
            ).file_hashes.wf(),
        ensures
            final(self).wf(),
            final(self).version == old(self).version,
            forall|x: Seq<char>| #[trigger]
                cache_has(final(self).checks@, x) == (cache_has(old(self).checks@, x) || x
                    == check_name@),
            forall|x: Seq<char>|
                x != check_name@ && #[trigger] cache_has(old(self).checks@, x) ==> cache_at(
                    final(self).checks@,
                    x,
                ) == cache_at(old(self).checks@, x),
            ({
                let e = cache_at(final(self).checks@, check_name@);
                &&& e.file_hashes.wf()
                &&& e.file_hashes@ == (if cache_has(old(self).checks@, check_name@) {
                    cache_at(old(self).checks@, check_name@).file_hashes@
                } else {
                    Map::<Seq<char>, Seq<char>>::empty()
                }).insert(file_path@, file_hash@)
                &&& (cache_has(old(self).checks@, check_name@) ==> e.config_hash == cache_at(
                    old(self).checks@,
                    check_name@,
                ).config_hash && e.content_hash == cache_at(
                    old(self).checks@,
                    check_name@,
                ).content_hash && e.metadata == cache_at(old(self).checks@, check_name@).metadata)
                &&& (!cache_has(old(self).checks@, check_name@) ==> (
                e.config_hash matches Some(h) && h@ == config_hash@) && e.content_hash is None
                    && e.metadata@.len() == 0)
            }),
            cache_file_maps_wf(old(self).checks@) ==> cache_file_maps_wf(final(self).checks@),
    {
        let taken = take_entry(&mut self.checks, check_name);
        proof {
            if cache_has(old(self).checks@, check_name@) {
                lemma_cache_remove(old(self).checks@, check_name@);
            }
        }
        let mut path_owned = String::new();
        path_owned.append(file_path);
        let entry: CheckCache = match taken {
            Some(e) => {
                let mut inner = e.1;
                inner.file_hashes.insert(path_owned, file_hash);
                inner
            },
            None => {
                let mut fh = StrMap::new();
                fh.insert(path_owned, file_hash);
                let mut config_owned = String::new();
                config_owned.append(config_hash);
                CheckCache {
                    config_hash: Some(config_owned),
                    content_hash: None,
                    file_hashes: fh,
                    metadata: Vec::new(),
                }
            },
        };
        let ghost entry_g = entry;
        let mut owned = String::new();
        owned.append(check_name);
        cache_insert(&mut self.checks, owned, entry);
        proof {
            let oldc = old(self).checks@;
            let ghost mid = if cache_has(oldc, check_name@) {
                oldc.remove(cache_index(oldc, check_name@))
            } else {
                oldc
            };
            if cache_has(oldc, check_name@) {
                lemma_cache_remove(oldc, check_name@);
            }
            assert forall|x: Seq<char>| #[trigger]
                cache_has(self.checks@, x) == (cache_has(oldc, x) || x == check_name@) by {
                assert(cache_has(self.checks@, x) == (cache_has(mid, x) || x == check_name@));
                if x != check_name@ {
                    assert(cache_has(mid, x) == cache_has(oldc, x));
                }
            }
            assert forall|x: Seq<char>|
                x != check_name@ && #[trigger] cache_has(oldc, x) implies cache_at(self.checks@, x)
                == cache_at(oldc, x) by {
                assert(cache_has(mid, x) == cache_has(oldc, x));
                assert(cache_at(self.checks@, x) == cache_at(mid, x));
                assert(cache_at(mid, x) == cache_at(oldc, x));
            }
            if cache_file_maps_wf(oldc) {
                assert forall|x: Seq<char>| #[trigger]
                    cache_has(self.checks@, x) implies cache_at(
                    self.checks@,
                    x,
                ).file_hashes.wf() by {
                    if x != check_name@ {
                        assert(cache_has(oldc, x));
                        assert(cache_at(self.checks@, x) == cache_at(oldc, x));
                    } else {
                        assert(cache_at(self.checks@, x) == entry_g);
                        if cache_has(oldc, check_name@) {
                            assert(cache_has(oldc, check_name@));
                        }
                    }
                }
            }
        }
    }

    /// Record a per-file check complete: every file passed, so the entry
    /// becomes a full success with the combined hash.
    pub fn finalize_per_file(
        &mut self,
        check_name: &str,
        config_hash: &str,
        combined_hash: String,
        file_hashes: StrMap,
        metadata: Vec<(String, MetadataValue)>,
    )
        requires
            old(self).wf(),
        ensures
            final(self).wf(),
            final(self).version == old(self).version,
            forall|x: Seq<char>| #[trigger]
                cache_has(final(self).checks@, x) == (cache_has(old(self).checks@, x) || x
                    == check_name@),
            forall|x: Seq<char>|
                x != check_name@ && #[trigger] cache_has(old(self).checks@, x) ==> cache_at(
                    final(self).checks@,
                    x,
                ) == cache_at(old(self).checks@, x),
            ({
                let e = cache_at(final(self).checks@, check_name@);
                &&& (e.config_hash matches Some(h) && h@ == config_hash@)
                &&& (e.content_hash matches Some(c) && c == combined_hash)
                &&& e.file_hashes == file_hashes
                &&& e.metadata == metadata
            }),
            cache_file_maps_wf(old(self).checks@) && file_hashes.wf() ==> cache_file_maps_wf(
                final(self).checks@,
            ),
    {
        let mut config_owned = String::new();
        config_owned.append(config_hash);
        let entry = CheckCache {
            config_hash: Some(config_owned),
            content_hash: Some(combined_hash),
            file_hashes,
            metadata,
        };
        let mut owned = String::new();
        owned.append(check_name);
        cache_insert(&mut self.checks, owned, entry);
        proof {
            if cache_file_maps_wf(old(self).checks@) && file_hashes.wf() {
                assert forall|x: Seq<char>| #[trigger]
                    cache_has(self.checks@, x) implies cache_at(
                    self.checks@,
                    x,
                ).file_hashes.wf() by {
                    if x != check_name@ {
                        assert(cache_has(old(self).checks@, x));
                    }
                }
            }
        }
    }

    /// Record a per-file check failed: clear the content hash but keep
    /// the file hashes, so passing files are not run again.
    pub fn mark_per_file_failed(&mut self, check_name: &str, config_hash: &str)
        requires
            old(self).wf(),
        ensures
            final(self).wf(),
            final(self).version == old(self).version,
            forall|x: Seq<char>| #[trigger]
                cache_has(final(self).checks@, x) == (cache_has(old(self).checks@, x) || x
                    == check_name@),
            forall|x: Seq<char>|
                x != check_name@ && #[trigger] cache_has(old(self).checks@, x) ==> cache_at(
                    final(self).checks@,
                    x,
                ) == cache_at(old(self).checks@, x),
            ({
                let e = cache_at(final(self).checks@, check_name@);
                &&& (e.config_hash matches Some(h) && h@ == config_hash@)
                &&& e.content_hash is None
                &&& (cache_has(old(self).checks@, check_name@) ==> e.file_hashes == cache_at(
                    old(self).checks@,
                    check_name@,
                ).file_hashes)
                &&& (!cache_has(old(self).checks@, check_name@) ==> e.file_hashes.wf()
                    && e.file_hashes.entries_view().len() == 0)
            }),
            cache_file_maps_wf(old(self).checks@) ==> cache_file_maps_wf(final(self).checks@),
    {
        let taken = take_entry(&mut self.checks, check_name);
        proof {
            if cache_has(old(self).checks@, check_name@) {
                lemma_cache_remove(old(self).checks@, check_name@);
            }
        }
        let mut config_owned = String::new();
        config_owned.append(config_hash);
        let entry: CheckCache = match taken {
            Some(e) => CheckCache {
                config_hash: Some(config_owned),
                content_hash: None,
                file_hashes: e.1.file_hashes,
                metadata: e.1.metadata,
            },
            None => CheckCache {
                config_hash: Some(config_owned),
                content_hash: None,
                file_hashes: StrMap::new(),
                metadata: Vec::new(),
            },
        };
        let ghost entry_g = entry;
        let mut owned = String::new();
        owned.append(check_name);
        cache_insert(&mut self.checks, owned, entry);
        proof {
            let oldc = old(self).checks@;
            let ghost mid = if cache_has(oldc, check_name@) {
                oldc.remove(cache_index(oldc, check_name@))
            } else {
                oldc
            };
            if cache_has(oldc, check_name@) {
                lemma_cache_remove(oldc, check_name@);
            }
            assert forall|x: Seq<char>| #[trigger]
                cache_has(self.checks@, x) == (cache_has(oldc, x) || x == check_name@) by {
                assert(cache_has(self.checks@, x) == (cache_has(mid, x) || x == check_name@));
                if x != check_name@ {
                    assert(cache_has(mid, x) == cache_has(oldc, x));
                }
            }
            assert forall|x: Seq<char>|
                x != check_name@ && #[trigger] cache_has(oldc, x) implies cache_at(self.checks@, x)
                == cache_at(oldc, x) by {
                assert(cache_has(mid, x) == cache_has(oldc, x));
                assert(cache_at(self.checks@, x) == cache_at(mid, x));
                assert(cache_at(mid, x) == cache_at(oldc, x));
            }
            if cache_file_maps_wf(old(self).checks@) {
                assert forall|x: Seq<char>| #[trigger]
                    cache_has(self.checks@, x) implies cache_at(
                    self.checks@,
                    x,
                ).file_hashes.wf() by {
                    if x != check_name@ {
                        assert(cache_has(old(self).checks@, x));
                    }
                }
            }
        }
    }

    /// Put one fully-given entry in, as when a lock file is read back.
    pub fn put_entry(
        &mut self,
        check_name: &str,
        config_hash: Option<String>,
        content_hash: Option<String>,
        file_hashes: StrMap,
        metadata: Vec<(String, MetadataValue)>,
    )
        requires
            old(self).wf(),
            file_hashes.wf(),
        ensures
            final(self).wf(),
            final(self).version == old(self).version,
            forall|x: Seq<char>| #[trigger]
                cache_has(final(self).checks@, x) == (cache_has(old(self).checks@, x) || x
                    == check_name@),
            forall|x: Seq<char>|
                x != check_name@ && #[trigger] cache_has(old(self).checks@, x) ==> cache_at(
                    final(self).checks@,
                    x,
                ) == cache_at(old(self).checks@, x),
            ({
                let e = cache_at(final(self).checks@, check_name@);
                &&& e.config_hash == config_hash
                &&& e.content_hash == content_hash
                &&& e.file_hashes == file_hashes
                &&& e.metadata == metadata
            }),
            cache_file_maps_wf(old(self).checks@) ==> cache_file_maps_wf(final(self).checks@),
    {
        let entry = CheckCache { config_hash, content_hash, file_hashes, metadata };
        let ghost entry_g = entry;
        let mut owned = String::new();
        owned.append(check_name);
        cache_insert(&mut self.checks, owned, entry);
        proof {
            if cache_file_maps_wf(old(self).checks@) {
                assert forall|x: Seq<char>| #[trigger]
                    cache_has(self.checks@, x) implies cache_at(
                    self.checks@,
                    x,
                ).file_hashes.wf() by {
                    if x != check_name@ {
                        assert(cache_has(old(self).checks@, x));
                        assert(cache_at(self.checks@, x) == cache_at(old(self).checks@, x));
                    } else {
                        assert(cache_at(self.checks@, x) == entry_g);
                    }
                }
            }
        }
    }

    /// Drop every entry whose name is not in the valid set, and no other:
    /// the orphan sweep.
    pub fn cleanup_orphaned(&mut self, valid_check_names: &Vec<String>)
        requires
            old(self).wf(),
        ensures
            final(self).wf(),
            final(self).version == old(self).version,
            forall|x: Seq<char>| #[trigger]
                cache_has(final(self).checks@, x) == (cache_has(old(self).checks@, x)
                    && name_listed(valid_check_names@, x)),
            forall|x: Seq<char>| #[trigger]
                cache_has(final(self).checks@, x) ==> cache_at(final(self).checks@, x) == cache_at(
                    old(self).checks@,
                    x,
                ),
            cache_file_maps_wf(old(self).checks@) ==> cache_file_maps_wf(final(self).checks@),
    {
        let ghost s0 = self.checks@;
        let mut kept: Vec<(String, CheckCache)> = Vec::new();
        let mut i: usize = 0;
        let n = self.checks.len();
        while self.checks.len() > 0
            invariant
                self.version == old(self).version,
                cache_sorted(s0),
                n == s0.len(),
                i <= n,
                self.checks@ =~= s0.skip(i as int),
                cache_sorted(kept@),
                forall|a: int|
                    0 <= a < kept@.len() ==> exists|j: int|
                        0 <= j < i && #[trigger] s0[j] == (#[trigger] kept@[a]),
                forall|x: Seq<char>| #[trigger]
                    cache_has(kept@, x) == (cache_has(s0.take(i as int), x) && name_listed(
                        valid_check_names@,
                        x,
                    )),
            decreases self.checks@.len(),
        {
            proof {
                assert(s0.skip(i as int).len() > 0);
                assert(i < n);
            }
            let e = self.checks.remove(0);
            proof {
                assert(e == s0.skip(i as int)[0]);
                assert(e == s0[i as int]);
                assert(self.checks@ =~= s0.skip(i as int + 1));
            }
            let keep = contains_name(valid_check_names, e.0.as_str());
            let ghost kept0 = kept@;
            if keep {
                kept.push(e);
            }
            proof {
                if keep {
                    assert forall|a: int, b: int|
                        0 <= a < b < kept@.len() implies lex_lt(
                        (#[trigger] kept@[a]).0@,
                        (#[trigger] kept@[b]).0@,
                    ) by {
                        if b == kept@.len() - 1 {
                            let j = choose|j: int| 0 <= j < i && #[trigger] s0[j] == kept0[a];
                            assert(kept@[b].0@ == s0[i as int].0@);
                            assert(lex_lt(s0[j].0@, s0[i as int].0@));
                        } else {
                            assert(kept0[a] == kept@[a] && kept0[b] == kept@[b]);
                        }
                    }
                }
                assert forall|x: Seq<char>| #[trigger]
                    cache_has(kept@, x) == (cache_has(s0.take(i as int + 1), x) && name_listed(
                        valid_check_names@,
                        x,
                    )) by {
                    assert(cache_has(kept0, x) == (cache_has(s0.take(i as int), x) && name_listed(
                        valid_check_names@,
                        x,
                    )));
                    if cache_has(kept@, x) {
                        let p = choose|p: int| 0 <= p < kept@.len() && (#[trigger] kept@[p]).0@ == x;
                        if p < kept0.len() {
                            assert(cache_has(kept0, x)) by {
                                assert(kept0[p].0@ == x);
                            }
                            assert(cache_has(s0.take(i as int), x));
                            let q = choose|q: int|
                                0 <= q < i && (#[trigger] s0.take(i as int)[q]).0@ == x;
                            assert(s0.take(i as int + 1)[q].0@ == x);
                        } else {
                            assert(kept@[p] == s0[i as int]);
                            assert(s0.take(i as int + 1)[i as int].0@ == x);
                        }
                    }
                    if cache_has(s0.take(i as int + 1), x) && name_listed(valid_check_names@, x) {
                        let q = choose|q: int|
                            0 <= q < i + 1 && (#[trigger] s0.take(i as int + 1)[q]).0@ == x;
                        if q < i {
                            assert(cache_has(s0.take(i as int), x)) by {
                                assert(s0.take(i as int)[q].0@ == x);
                            }
                            assert(cache_has(kept0, x));
                            let p = choose|p: int|
                                0 <= p < kept0.len() && (#[trigger] kept0[p]).0@ == x;
                            assert(kept@[p].0@ == x);
                        } else {
                            assert(s0[i as int].0@ == x);
                            assert(kept@[kept@.len() - 1] == s0[i as int]);
                            assert(kept@[kept@.len() - 1].0@ == x);
                        }
                    }
                }
            }
            i = i + 1;
        }
        proof {
            assert(i == n) by {
                assert(s0.skip(i as int).len() == 0);
            }
            assert(s0.take(i as int) =~= s0);
            assert forall|x: Seq<char>| #[trigger]
                cache_has(kept@, x) implies cache_at(kept@, x) == cache_at(s0, x) by {
                lemma_cache_index(kept@, x);
                let p = cache_index(kept@, x);
                let j = choose|j: int| 0 <= j < n && #[trigger] s0[j] == kept@[p];
                assert(cache_has(s0, x)) by {
                    assert(s0[j].0@ == x);
                }
                lemma_cache_index(s0, x);
                assert(cache_index(s0, x) == j);
            }
            if cache_file_maps_wf(s0) {
                assert forall|x: Seq<char>| #[trigger]
                    cache_has(kept@, x) implies cache_at(kept@, x).file_hashes.wf() by {
                    assert(cache_has(s0, x) || !cache_has(s0, x));
                    assert(cache_at(kept@, x) == cache_at(s0, x));
                    assert(cache_has(s0, x)) by {
                        lemma_cache_index(kept@, x);
                        let p = cache_index(kept@, x);
                        let j = choose|j: int| 0 <= j < n && #[trigger] s0[j] == kept@[p];
                        assert(s0[j].0@ == x);
                    }
                }
            }
        }
        self.checks = kept;
    }

    /// Remove the named entries, or every entry when no name is given.
    pub fn clear(&mut self, names: &Vec<String>)
        requires
            old(self).wf(),
        ensures
            final(self).wf(),
            final(self).version == old(self).version,
            names@.len() == 0 ==> final(self).checks@.len() == 0,
            names@.len() > 0 ==> forall|x: Seq<char>| #[trigger]
                cache_has(final(self).checks@, x) == (cache_has(old(self).checks@, x)
                    && !name_listed(names@, x)),
            names@.len() > 0 ==> forall|x: Seq<char>| #[trigger]
                cache_has(final(self).checks@, x) ==> cache_at(final(self).checks@, x) == cache_at(
                    old(self).checks@,
                    x,
                ),
            cache_file_maps_wf(old(self).checks@) ==> cache_file_maps_wf(final(self).checks@),
    {
        if names.len() == 0 {
            self.checks = Vec::new();
            return ;
        }
        let ghost s0 = self.checks@;
        let mut kept: Vec<(String, CheckCache)> = Vec::new();
        let mut i: usize = 0;
        let n = self.checks.len();
        while self.checks.len() > 0
            invariant
                self.version == old(self).version,
                cache_sorted(s0),
                n == s0.len(),
                i <= n,
                self.checks@ =~= s0.skip(i as int),
                cache_sorted(kept@),
                forall|a: int|
                    0 <= a < kept@.len() ==> exists|j: int|
                        0 <= j < i && #[trigger] s0[j] == (#[trigger] kept@[a]),
                forall|x: Seq<char>| #[trigger]
                    cache_has(kept@, x) == (cache_has(s0.take(i as int), x) && !name_listed(
                        names@,
                        x,
                    )),
            decreases self.checks@.len(),
        {
            proof {
                assert(s0.skip(i as int).len() > 0);
                assert(i < n);
            }
            let e = self.checks.remove(0);
            proof {
                assert(e == s0.skip(i as int)[0]);
                assert(e == s0[i as int]);
                assert(self.checks@ =~= s0.skip(i as int + 1));
            }
            let keep = !contains_name(names, e.0.as_str());
            let ghost kept0 = kept@;
            if keep {
                kept.push(e);
            }
            proof {
                if keep {
                    assert forall|a: int, b: int|
                        0 <= a < b < kept@.len() implies lex_lt(
                        (#[trigger] kept@[a]).0@,
                        (#[trigger] kept@[b]).0@,
                    ) by {
                        if b == kept@.len() - 1 {
                            let j = choose|j: int| 0 <= j < i && #[trigger] s0[j] == kept0[a];
                            assert(kept@[b].0@ == s0[i as int].0@);
                            assert(lex_lt(s0[j].0@, s0[i as int].0@));
                        } else {
                            assert(kept0[a] == kept@[a] && kept0[b] == kept@[b]);
                        }
                    }
                }
                assert forall|x: Seq<char>| #[trigger]
                    cache_has(kept@, x) == (cache_has(s0.take(i as int + 1), x) && !name_listed(
                        names@,
                        x,
                    )) by {
                    assert(cache_has(kept0, x) == (cache_has(s0.take(i as int), x) && !name_listed(
                        names@,
                        x,
                    )));
                    if cache_has(kept@, x) {
                        let p = choose|p: int| 0 <= p < kept@.len() && (#[trigger] kept@[p]).0@ == x;
                        if p < kept0.len() {
                            assert(cache_has(kept0, x)) by {
                                assert(kept0[p].0@ == x);
                            }
                            assert(cache_has(s0.take(i as int), x));
                            let q = choose|q: int|
                                0 <= q < i && (#[trigger] s0.take(i as int)[q]).0@ == x;
                            assert(s0.take(i as int + 1)[q].0@ == x);
                        } else {
                            assert(kept@[p] == s0[i as int]);
                            assert(s0.take(i as int + 1)[i as int].0@ == x);
                        }
                    }
                    if cache_has(s0.take(i as int + 1), x) && !name_listed(names@, x) {
                        let q = choose|q: int|
                            0 <= q < i + 1 && (#[trigger] s0.take(i as int + 1)[q]).0@ == x;
                        if q < i {
                            assert(cache_has(s0.take(i as int), x)) by {
                                assert(s0.take(i as int)[q].0@ == x);
                            }
                            assert(cache_has(kept0, x));
                            let p = choose|p: int|
                                0 <= p < kept0.len() && (#[trigger] kept0[p]).0@ == x;
                            assert(kept@[p].0@ == x);
                        } else {
                            assert(s0[i as int].0@ == x);
                            assert(kept@[kept@.len() - 1] == s0[i as int]);
                            assert(kept@[kept@.len() - 1].0@ == x);
                        }
                    }
                }
            }
            i = i + 1;
        }
        proof {
            assert(i == n) by {
                assert(s0.skip(i as int).len() == 0);
            }
            assert(s0.take(i as int) =~= s0);
            assert forall|x: Seq<char>| #[trigger]
                cache_has(kept@, x) implies cache_at(kept@, x) == cache_at(s0, x) by {
                lemma_cache_index(kept@, x);
                let p = cache_index(kept@, x);
                let j = choose|j: int| 0 <= j < n && #[trigger] s0[j] == kept@[p];
                assert(cache_has(s0, x)) by {
                    assert(s0[j].0@ == x);
                }
                lemma_cache_index(s0, x);
                assert(cache_index(s0, x) == j);
            }
            if cache_file_maps_wf(s0) {
                assert forall|x: Seq<char>| #[trigger]
                    cache_has(kept@, x) implies cache_at(kept@, x).file_hashes.wf() by {
                    assert(cache_at(kept@, x) == cache_at(s0, x));
                    assert(cache_has(s0, x)) by {
                        lemma_cache_index(kept@, x);
                        let p = cache_index(kept@, x);
                        let j = choose|j: int| 0 <= j < n && #[trigger] s0[j] == kept@[p];
                        assert(s0[j].0@ == x);
                    }
                }
            }
        }
        self.checks = kept;
    }
}

/// Whether a list of names carries one name.
pub open spec fn name_listed(names: Seq<String>, k: Seq<char>) -> bool {
    exists|i: int| 0 <= i < names.len() && (#[trigger] names[i])@ == k
}

/// Whether a list of names carries one name.
pub fn contains_name(names: &Vec<String>, k: &str) -> (r: bool)
    ensures
        r == name_listed(names@, k@),
{
    let n = names.len();
    let mut i: usize = 0;
    while i < n
        invariant
            i <= n,
            n == names@.len(),
            forall|j: int| 0 <= j < i ==> (#[trigger] names@[j])@ != k@,
        decreases n - i,
    {
        if str_eq(names[i].as_str(), k) {
            proof {
                assert(names@[i as int]@ == k@);
            }
            return true;
        }
        i = i + 1;
    }
    false
}

/// An independent copy of one metadata value.
pub fn duplicate_value(v: &MetadataValue) -> (r: MetadataValue)
    ensures
        r == *v,
{
    match v {
        MetadataValue::Integer(n) => MetadataValue::Integer(*n),
        MetadataValue::Float(s) => MetadataValue::Float(s.clone()),
        MetadataValue::Text(s) => MetadataValue::Text(s.clone()),
    }
}

/// An independent copy of a metadata list.
pub fn duplicate_metadata(md: &Vec<(String, MetadataValue)>) -> (r: Vec<(String, MetadataValue)>)
    ensures
        r@ == md@,
{
    let n = md.len();
    let mut out: Vec<(String, MetadataValue)> = Vec::new();
    let mut i: usize = 0;
    while i < n
        invariant
            i <= n,
            n == md@.len(),
            out@ =~= md@.take(i as int),
        decreases n - i,
    {
        let k = md[i].0.clone();
        let v = duplicate_value(&md[i].1);
        out.push((k, v));
        i = i + 1;
    }
    proof {
        assert(out@ =~= md@);
    }
    out
}

/// After a successful run is recorded, reading the same content and
/// configuration back yields a verified status.
pub proof fn lemma_update_success_reads_verified(
    s: Seq<(String, CheckCache)>,
    name: Seq<char>,
    content: Seq<char>,
    config: Seq<char>,
)
    requires
        cache_has(s, name),
        cache_at(s, name).config_hash matches Some(h) && h@ == config,
        cache_at(s, name).content_hash matches Some(c) && c@ == content,
    ensures
        verified_in_cache(s, name, content, config),
        !never_run_in_cache(s, name, config),
        !config_changed_in_cache(s, name, config),
        !files_changed_in_cache(s, name, content, config),
{
}

/// After a failed run is recorded, the check reads as never run: a failure
/// is indistinguishable from no run at all.
pub proof fn lemma_update_failure_reads_never_run(
    s: Seq<(String, CheckCache)>,
    name: Seq<char>,
    content: Seq<char>,
    config: Seq<char>,
)
    requires
        cache_has(s, name),
        cache_at(s, name).config_hash matches Some(h) && h@ == config,
        cache_at(s, name).content_hash is None,
    ensures
        never_run_in_cache(s, name, config),
        !verified_in_cache(s, name, content, config),
        !config_changed_in_cache(s, name, config),
        !files_changed_in_cache(s, name, content, config),
{
}

} // verus!
