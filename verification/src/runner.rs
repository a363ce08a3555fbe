//! The decision engine and planner: what status a check has, whether it
//! must run, which files of a per-file check are stale.  Spawning the
//! commands themselves is left to the caller, which reports each outcome
//! back into the lock store.

use vstd::prelude::*;

use crate::cache::cache_at;
use crate::cache::cache_file_maps_wf;
use crate::cache::cache_has;
use crate::cache::config_changed_in_cache;
use crate::cache::files_changed_in_cache;
use crate::cache::never_run_in_cache;
use crate::cache::verified_in_cache;
use crate::cache::CacheState;
use crate::cache::UnverifiedReason;
use crate::cache::VerificationStatus;
use crate::config::config_hash_of;
use crate::config::Verification;
use crate::hasher::compute_check_hash;
use crate::hasher::find_changed_files;
use crate::hasher::is_change_line;
use crate::hasher::lines_sorted;
use crate::hasher::seq_has;
use crate::hasher::views_of;
use crate::hasher::HashResult;
use crate::strmap::StrMap;
use crate::text::str_eq;

verus! {

/// What one completed execution of a check looked like.
pub struct CheckExecution {
    /// The check's name.
    pub name: String,
    /// Whether the command exited zero.
    pub success: bool,
    /// How long it ran.
    pub duration_ms: u64,
    /// The exit code, when the process ran at all.
    pub exit_code: Option<i32>,
    /// The merged output, when captured.
    pub output: Option<String>,
    /// The combined content hash at execution time.
    pub content_hash: String,
    /// The full hash listing at execution time.
    pub hash_result: HashResult,
}

/// The first value recorded for a name in a name-to-flag list.
pub open spec fn flag_first(entries: Seq<(String, bool)>, k: Seq<char>) -> Option<bool>
    decreases entries.len(),
{
    if entries.len() == 0 {
        None
    } else if entries[0].0@ == k {
        Some(entries[0].1)
    } else {
        flag_first(entries.drop_first(), k)
    }
}

/// Whether a dependency reads as stale in the map: an unknown name does.
pub open spec fn dep_is_stale(entries: Seq<(String, bool)>, k: Seq<char>) -> bool {
    match flag_first(entries, k) {
        None => true,
        Some(b) => b,
    }
}

/// Look a name's flag up, first entry winning.
pub fn flag_lookup(entries: &Vec<(String, bool)>, k: &str) -> (r: Option<bool>)
    ensures
        r == flag_first(entries@, k@),
{
    let n = entries.len();
    let mut i: usize = 0;
    proof {
        assert(entries@.skip(0) =~= entries@);
    }
    while i < n
        invariant
            i <= n,
            n == entries@.len(),
            flag_first(entries@, k@) == flag_first(entries@.skip(i as int), k@),
        decreases n - i,
    {
        proof {
            assert(entries@.skip(i as int)[0] == entries@[i as int]);
            assert(entries@.skip(i as int).drop_first() =~= entries@.skip(i + 1));
        }
        if str_eq(entries[i].0.as_str(), k) {
            return Some(entries[i].1);
        }
        i = i + 1;
    }
    proof {
        assert(entries@.skip(n as int).len() == 0);
    }
    None
}

/// Record a name's flag, appending when absent and overwriting when
/// present, so that a later reading finds this value.
pub fn flag_set(entries: &mut Vec<(String, bool)>, k: &str, value: bool)
    ensures
        flag_first(final(entries)@, k@) == Some(value),
        forall|x: Seq<char>|
            x != k@ ==> #[trigger] flag_first(final(entries)@, x) == flag_first(old(entries)@, x),
{
    let n = entries.len();
    let mut i: usize = 0;
    while i < n
        invariant
            i <= n,
            n == entries@.len(),
            entries@ == old(entries)@,
            forall|j: int| 0 <= j < i ==> (#[trigger] entries@[j]).0@ != k@,
        decreases n - i,
    {
        if str_eq(entries[i].0.as_str(), k) {
            entries[i].1 = value;
            proof {
                let s0 = old(entries)@;
                let s1 = entries@;
                assert(s1 =~= s0.update(i as int, (s0[i as int].0, value)));
                lemma_flag_update(s0, i as int, value, k@);
            }
            return ;
        }
        i = i + 1;
    }
    let mut owned = String::new();
    owned.append(k);
    entries.push((owned, value));
    proof {
        let s0 = old(entries)@;
        let s1 = entries@;
        assert(s1 =~= s0.push(s1.last()));
        lemma_flag_none(s0, k@);
        lemma_flag_append(s0, s1.last(), k@);
        assert(s1.last().0@ == k@);
        assert forall|x: Seq<char>|
            x != k@ implies #[trigger] flag_first(s1, x) == flag_first(s0, x) by {
            lemma_flag_append(s0, s1.last(), x);
        }
    }
}

/// Updating the first entry of a name rewrites only that name's reading.
proof fn lemma_flag_update(s: Seq<(String, bool)>, i: int, value: bool, k: Seq<char>)
    requires
        0 <= i < s.len(),
        s[i].0@ == k,
        forall|j: int| 0 <= j < i ==> (#[trigger] s[j]).0@ != k,
    ensures
        flag_first(s.update(i, (s[i].0, value)), k) == Some(value),
        forall|x: Seq<char>|
            x != k ==> #[trigger] flag_first(s.update(i, (s[i].0, value)), x) == flag_first(s, x),
    decreases s.len(),
{
    let t = s.update(i, (s[i].0, value));
    if i == 0 {
        assert(t[0].0@ == k);
        assert forall|x: Seq<char>|
            x != k implies #[trigger] flag_first(t, x) == flag_first(s, x) by {
            assert(t.drop_first() =~= s.drop_first());
        }
    } else {
        assert(t[0] == s[0]);
        assert(t.drop_first() =~= s.drop_first().update(i - 1, (s[i].0, value)));
        assert(s.drop_first()[i - 1] == s[i]);
        assert forall|j: int| 0 <= j < i - 1 implies (#[trigger] s.drop_first()[j]).0@ != k by {
            assert(s.drop_first()[j] == s[j + 1]);
        }
        lemma_flag_update(s.drop_first(), i - 1, value, k);
        assert(s[0].0@ != k);
        assert(flag_first(t, k) == flag_first(t.drop_first(), k));
        assert(flag_first(t, k) == Some(value));
        assert forall|x: Seq<char>|
            x != k implies #[trigger] flag_first(t, x) == flag_first(s, x) by {
            assert(flag_first(t.drop_first(), x) == flag_first(s.drop_first(), x));
        }
    }
}

/// A name none of whose entries match reads as absent.
proof fn lemma_flag_none(s: Seq<(String, bool)>, k: Seq<char>)
    requires
        forall|j: int| 0 <= j < s.len() ==> (#[trigger] s[j]).0@ != k,
    ensures
        flag_first(s, k) is None,
    decreases s.len(),
{
    if s.len() > 0 {
        assert forall|j: int| 0 <= j < s.drop_first().len() implies (
        #[trigger] s.drop_first()[j]).0@ != k by {
            assert(s.drop_first()[j] == s[j + 1]);
        }
        lemma_flag_none(s.drop_first(), k);
    }
}

/// Appending an entry changes only the reading of names that were absent.
proof fn lemma_flag_append(s: Seq<(String, bool)>, e: (String, bool), x: Seq<char>)
    ensures
        flag_first(s, x) is Some ==> flag_first(s.push(e), x) == flag_first(s, x),
        flag_first(s, x) is None && e.0@ == x ==> flag_first(s.push(e), x) == Some(e.1),
        flag_first(s, x) is None && e.0@ != x ==> flag_first(s.push(e), x) is None,
    decreases s.len(),
{
    if s.len() == 0 {
        assert(flag_first(s, x) is None);
        assert(s.push(e)[0] == e);
        assert(s.push(e).drop_first() =~= Seq::<(String, bool)>::empty());
        if e.0@ == x {
            assert(flag_first(s.push(e), x) == Some(e.1));
        } else {
            assert(flag_first(s.push(e), x) == flag_first(s.push(e).drop_first(), x));
            assert(flag_first(s.push(e).drop_first(), x) is None);
        }
    } else {
        assert(s.push(e)[0] == s[0]);
        assert(s.push(e).drop_first() =~= s.drop_first().push(e));
        lemma_flag_append(s.drop_first(), e, x);
        if s[0].0@ == x {
            assert(flag_first(s, x) == Some(s[0].1));
            assert(flag_first(s.push(e), x) == Some(s[0].1));
        } else {
            assert(flag_first(s, x) == flag_first(s.drop_first(), x));
            assert(flag_first(s.push(e), x) == flag_first(s.drop_first().push(e), x));
        }
    }
}

/// Whether some dependency of a check reads as stale.
pub open spec fn some_dep_stale(check: Verification, m: Seq<(String, bool)>) -> bool {
    exists|i: int|
        0 <= i < check.depends_on@.len() && dep_is_stale(m, (#[trigger] check.depends_on@[i])@)
}

/// Decide the status of one check: the first stale dependency blocks it;
/// an aggregate with none is verified; an untracked check is untracked;
/// anything else reads the lock store, and a content change names the
/// changed files.
pub fn compute_status(
    check: &Verification,
    hash_result: &HashResult,
    cache: &CacheState,
    dep_staleness: &Vec<(String, bool)>,
) -> (r: VerificationStatus)
    requires
        cache.wf(),
        cache_file_maps_wf(cache.checks@),
        hash_result.file_hashes.wf(),
    ensures
        (r matches VerificationStatus::Unverified {
            reason: UnverifiedReason::DependencyUnverified { .. },
        }) == some_dep_stale(*check, dep_staleness@),
        match r {
            VerificationStatus::Unverified {
                reason: UnverifiedReason::DependencyUnverified { dependency },
            } => exists|i: int|
                0 <= i < check.depends_on@.len() && dependency@ == (
                #[trigger] check.depends_on@[i])@ && dep_is_stale(
                    dep_staleness@,
                    check.depends_on@[i]@,
                ) && forall|j: int|
                    0 <= j < i ==> !dep_is_stale(
                        dep_staleness@,
                        (#[trigger] check.depends_on@[j])@,
                    ),
            _ => true,
        },
        (r is Verified) == (!some_dep_stale(*check, dep_staleness@) && (check.command is None || (
        check.cache_paths@.len() > 0 && verified_in_cache(
            cache.checks@,
            check.name@,
            hash_result.combined_hash@,
            config_hash_of(*check),
        )))),
        (r is Untracked) == (!some_dep_stale(*check, dep_staleness@) && check.command is Some
            && check.cache_paths@.len() == 0),
        (r matches VerificationStatus::Unverified { reason: UnverifiedReason::NeverRun }) == (
        !some_dep_stale(*check, dep_staleness@) && check.command is Some && check.cache_paths@.len()
            > 0 && never_run_in_cache(cache.checks@, check.name@, config_hash_of(*check))),
        (r matches VerificationStatus::Unverified { reason: UnverifiedReason::ConfigChanged }) == (
        !some_dep_stale(*check, dep_staleness@) && check.command is Some && check.cache_paths@.len()
            > 0 && config_changed_in_cache(cache.checks@, check.name@, config_hash_of(*check))),
        (r matches VerificationStatus::Unverified {
            reason: UnverifiedReason::FilesChanged { .. },
        }) == (!some_dep_stale(*check, dep_staleness@) && check.command is Some
            && check.cache_paths@.len() > 0 && files_changed_in_cache(
            cache.checks@,
            check.name@,
            hash_result.combined_hash@,
            config_hash_of(*check),
        )),
        match r {
            VerificationStatus::Unverified {
                reason: UnverifiedReason::FilesChanged { changed_files },
            } => lines_sorted(views_of(changed_files@)) && (cache_has(cache.checks@, check.name@)
                ==> forall|l: Seq<char>| #[trigger]
                seq_has(views_of(changed_files@), l) == is_change_line(
                    cache_at(cache.checks@, check.name@).file_hashes@,
                    hash_result.file_hashes@,
                    l,
                )),
            _ => true,
        },
{
    // The first stale dependency decides.
    let dn = check.depends_on.len();
    let mut di: usize = 0;
    while di < dn
        invariant
            di <= dn,
            dn == check.depends_on@.len(),
            forall|j: int|
                0 <= j < di ==> !dep_is_stale(dep_staleness@, (#[trigger] check.depends_on@[j])@),
        decreases dn - di,
    {
        let dep = &check.depends_on[di];
        let stale: bool = match flag_lookup(dep_staleness, dep.as_str()) {
            None => true,
            Some(b) => b,
        };
        if stale {
            proof {
                assert(dep_is_stale(dep_staleness@, check.depends_on@[di as int]@));
            }
            return VerificationStatus::Unverified {
                reason: UnverifiedReason::DependencyUnverified { dependency: dep.clone() },
            };
        }
        di = di + 1;
    }
    proof {
        assert(!some_dep_stale(*check, dep_staleness@));
    }
    // An aggregate with verified dependencies is verified.
    if check.command.is_none() {
        return VerificationStatus::Verified;
    }
    // A check tracking no files cannot be decided.
    if check.cache_paths.len() == 0 {
        return VerificationStatus::Untracked;
    }
    // Read the lock store, and name the changed files on a content change.
    let config_hash = check.config_hash();
    let status = cache.check_staleness(
        check.name.as_str(),
        hash_result.combined_hash.as_str(),
        config_hash.as_str(),
    );
    match status {
        VerificationStatus::Unverified {
            reason: UnverifiedReason::FilesChanged { changed_files },
        } => {
            match cache.get(check.name.as_str()) {
                Some(cached) => {
                    let changed = find_changed_files(&cached.file_hashes, &hash_result.file_hashes);
                    VerificationStatus::Unverified {
                        reason: UnverifiedReason::FilesChanged { changed_files: changed },
                    }
                },
                None => VerificationStatus::Unverified {
                    reason: UnverifiedReason::FilesChanged { changed_files },
                },
            }
        },
        other => other,
    }
}

/// Which files of a per-file check still have to run: those the cached
/// listing does not carry with today's hash.  The result keeps the sorted
/// order of the current listing.
pub fn get_stale_files_from_cache(cached_file_hashes: &StrMap, current_hashes: &HashResult) -> (r:
    Vec<String>)
    requires
        cached_file_hashes.wf(),
        current_hashes.file_hashes.wf(),
    ensures
        forall|k: int|
            0 <= k < r@.len() ==> current_hashes.file_hashes@.contains_key((#[trigger] r@[k])@) && !(
            cached_file_hashes@.contains_key(r@[k]@) && cached_file_hashes@[r@[k]@]
                == current_hashes.file_hashes@[r@[k]@]),
        forall|p: Seq<char>| #[trigger]
            current_hashes.file_hashes@.contains_key(p) && !(cached_file_hashes@.contains_key(p)
                && cached_file_hashes@[p] == current_hashes.file_hashes@[p]) ==> seq_has(
                views_of(r@),
                p,
            ),
{
    let ghost fv = current_hashes.file_hashes.entries_view();
    let mut out: Vec<String> = Vec::new();
    let n = current_hashes.file_hashes.len();
    let mut i: usize = 0;
    while i < n
        invariant
            cached_file_hashes.wf(),
            current_hashes.file_hashes.wf(),
            fv == current_hashes.file_hashes.entries_view(),
            i <= n,
            n == fv.len(),
            forall|k: int|
                0 <= k < out@.len() ==> current_hashes.file_hashes@.contains_key(
                    (#[trigger] out@[k])@,
                ) && !(cached_file_hashes@.contains_key(out@[k]@) && cached_file_hashes@[out@[k]@]
                    == current_hashes.file_hashes@[out@[k]@]),
            forall|q: int|
                0 <= q < i && !(cached_file_hashes@.contains_key((#[trigger] fv[q]).0)
                    && cached_file_hashes@[fv[q].0] == current_hashes.file_hashes@[fv[q].0])
                    ==> seq_has(views_of(out@), fv[q].0),
        decreases n - i,
    {
        let path = current_hashes.file_hashes.key_at(i).clone();
        let cur_val = current_hashes.file_hashes.val_at(i);
        proof {
            assert(fv[i as int].0 == path@);
            crate::strmap::lemma_key_index(fv, path@);
            assert(current_hashes.file_hashes@.contains_key(path@));
            assert(current_hashes.file_hashes@[path@] == fv[i as int].1);
        }
        let stale: bool = match cached_file_hashes.get(path.as_str()) {
            None => true,
            Some(old_hash) => !str_eq(old_hash.as_str(), cur_val.as_str()),
        };
        let ghost out0 = out@;
        if stale {
            out.push(path);
            proof {
                assert forall|q: int|
                    0 <= q < i + 1 && !(cached_file_hashes@.contains_key((#[trigger] fv[q]).0)
                        && cached_file_hashes@[fv[q].0] == current_hashes.file_hashes@[fv[q].0]) implies seq_has(
                    views_of(out@),
                    fv[q].0,
                ) by {
                    if q < i {
                        assert(seq_has(views_of(out0), fv[q].0));
                        let p = choose|p: int|
                            0 <= p < views_of(out0).len() && views_of(out0)[p] == fv[q].0;
                        assert(views_of(out@)[p] == fv[q].0);
                    } else {
                        assert(views_of(out@)[out@.len() - 1] == fv[q].0);
                    }
                }
            }
        } else {
            proof {
                assert forall|q: int|
                    0 <= q < i + 1 && !(cached_file_hashes@.contains_key((#[trigger] fv[q]).0)
                        && cached_file_hashes@[fv[q].0] == current_hashes.file_hashes@[fv[q].0]) implies seq_has(
                    views_of(out@),
                    fv[q].0,
                ) by {
                    if q < i {
                    } else {
                        assert(cached_file_hashes@.contains_key(fv[q].0)
                            && cached_file_hashes@[fv[q].0]
                            == current_hashes.file_hashes@[fv[q].0]);
                    }
                }
            }
        }
        i = i + 1;
    }
    proof {
        assert forall|p: Seq<char>|
            current_hashes.file_hashes@.contains_key(p) && !(cached_file_hashes@.contains_key(p)
                && cached_file_hashes@[p] == current_hashes.file_hashes@[p]) implies seq_has(
            views_of(out@),
            p,
        ) by {
            crate::strmap::lemma_key_index(fv, p);
            let q = crate::strmap::key_index(fv, p);
            assert(fv[q].0 == p);
        }
    }
    out
}

/// What the runner must do for one check, decided before anything runs.
#[derive(Debug)]
pub enum CheckPlan {
    /// A dependency already failed in this run; report and move on.
    DependencyFailed { dependency: String },
    /// An aggregate whose dependencies all passed; implicit success.
    AggregatePass,
    /// Fresh in the lock store; skip.
    SkipFresh,
    /// Spawn the command once.
    RunCommand { command: String },
    /// Spawn the command once per stale file.
    RunPerFile { command: String, stale_files: Vec<String>, total_files: usize },
}

/// Whether some dependency of the check failed earlier in this run.
pub open spec fn some_dep_failed(check: Verification, executed: Seq<(String, bool)>) -> bool {
    exists|i: int|
        0 <= i < check.depends_on@.len() && flag_first(
            executed,
            (#[trigger] check.depends_on@[i])@,
        ) == Some(true)
}

/// The cached listing a per-file run measures staleness against: the
/// stored file listing when the store holds the check under its current
/// configuration hash, and nothing otherwise (a configuration change
/// discards partial progress).
pub open spec fn effective_cached_listing(
    cache: Seq<(String, crate::cache::CheckCache)>,
    check: Verification,
) -> Map<Seq<char>, Seq<char>> {
    if cache_has(cache, check.name@) && (cache_at(cache, check.name@).config_hash matches Some(h)
        && h@ == config_hash_of(check)) {
        cache_at(cache, check.name@).file_hashes@
    } else {
        Map::empty()
    }
}

/// Decide what to do for one check, from the lock store, the current
/// hashes, what already ran (name to had-failure), and the force flag.
pub fn plan_check(
    check: &Verification,
    hash_result: &HashResult,
    cache: &CacheState,
    executed: &Vec<(String, bool)>,
    force: bool,
) -> (r: CheckPlan)
    requires
        cache.wf(),
        cache_file_maps_wf(cache.checks@),
        hash_result.file_hashes.wf(),
    ensures
        (r matches CheckPlan::DependencyFailed { .. }) == some_dep_failed(*check, executed@),
        match r {
            CheckPlan::DependencyFailed { dependency } => exists|i: int|
                0 <= i < check.depends_on@.len() && dependency@ == (
                #[trigger] check.depends_on@[i])@ && flag_first(executed@, check.depends_on@[i]@)
                    == Some(true),
            _ => true,
        },
        (r is AggregatePass) == (!some_dep_failed(*check, executed@) && check.command is None),
        (r is SkipFresh) == (!some_dep_failed(*check, executed@) && check.command is Some && !force
            && !some_dep_stale(*check, executed@) && check.cache_paths@.len() > 0
            && verified_in_cache(
            cache.checks@,
            check.name@,
            hash_result.combined_hash@,
            config_hash_of(*check),
        )),
        (r matches CheckPlan::RunCommand { .. }) == (!some_dep_failed(*check, executed@)
            && check.command is Some && !check.per_file && !(!force && !some_dep_stale(
            *check,
            executed@,
        ) && check.cache_paths@.len() > 0 && verified_in_cache(
            cache.checks@,
            check.name@,
            hash_result.combined_hash@,
            config_hash_of(*check),
        ))),
        (r matches CheckPlan::RunPerFile { .. }) == (!some_dep_failed(*check, executed@)
            && check.command is Some && check.per_file && !(!force && !some_dep_stale(
            *check,
            executed@,
        ) && check.cache_paths@.len() > 0 && verified_in_cache(
            cache.checks@,
            check.name@,
            hash_result.combined_hash@,
            config_hash_of(*check),
        ))),
        match r {
            CheckPlan::RunCommand { command } => check.command matches Some(c) && c@ == command@,
            _ => true,
        },
        match r {
            CheckPlan::RunPerFile { command, .. } => (check.command matches Some(c) && c@
                == command@) && check.per_file,
            _ => true,
        },
        (r is SkipFresh) || (r matches CheckPlan::RunCommand { .. }) || (r
            matches CheckPlan::RunPerFile { .. }) ==> !some_dep_failed(*check, executed@)
            && check.command is Some,
        match r {
            CheckPlan::RunPerFile { stale_files, total_files, .. } => ({
                let cached = effective_cached_listing(cache.checks@, *check);
                &&& total_files == hash_result.file_hashes.entries_view().len()
                &&& forall|k: int|
                    0 <= k < stale_files@.len() ==> hash_result.file_hashes@.contains_key(
                        (#[trigger] stale_files@[k])@,
                    ) && !(cached.contains_key(stale_files@[k]@) && cached[stale_files@[k]@]
                        == hash_result.file_hashes@[stale_files@[k]@])
                &&& forall|p: Seq<char>| #[trigger]
                    hash_result.file_hashes@.contains_key(p) && !(cached.contains_key(p)
                        && cached[p] == hash_result.file_hashes@[p]) ==> crate::hasher::seq_has(
                        crate::hasher::views_of(stale_files@),
                        p,
                    )
            }),
            _ => true,
        },
{
    // A failed dependency blocks the check outright.
    let dn = check.depends_on.len();
    let mut di: usize = 0;
    while di < dn
        invariant
            di <= dn,
            dn == check.depends_on@.len(),
            forall|j: int|
                0 <= j < di ==> flag_first(executed@, (#[trigger] check.depends_on@[j])@) != Some(
                    true,
                ),
        decreases dn - di,
    {
        let dep = &check.depends_on[di];
        let failed: bool = match flag_lookup(executed, dep.as_str()) {
            Some(true) => true,
            _ => false,
        };
        if failed {
            proof {
                assert(flag_first(executed@, check.depends_on@[di as int]@) == Some(true));
            }
            return CheckPlan::DependencyFailed { dependency: dep.clone() };
        }
        di = di + 1;
    }
    proof {
        assert(!some_dep_failed(*check, executed@));
    }
    // An aggregate never spawns; with no failed dependency it passes.
    match &check.command {
        None => CheckPlan::AggregatePass,
        Some(command) => {
            // Decide freshness from the lock store, treating failed or
            // unknown names among the dependencies as stale.
            let should_run: bool = if force {
                true
            } else {
                let status = compute_status(check, hash_result, cache, executed);
                match status {
                    VerificationStatus::Verified => false,
                    _ => true,
                }
            };
            if !should_run {
                return CheckPlan::SkipFresh;
            }
            if check.per_file {
                // Partial progress counts only under the same
                // configuration.
                let config_hash = check.config_hash();
                let config_changed: bool = match cache.get(check.name.as_str()) {
                    Some(c) => match &c.config_hash {
                        Some(h) => !str_eq(h.as_str(), config_hash.as_str()),
                        None => true,
                    },
                    None => true,
                };
                let ghost cached_g = effective_cached_listing(cache.checks@, *check);
                let empty = StrMap::new();
                let stale_files: Vec<String> = if config_changed {
                    proof {
                        assert(cached_g =~= Map::<Seq<char>, Seq<char>>::empty());
                    }
                    get_stale_files_from_cache(&empty, hash_result)
                } else {
                    match cache.get(check.name.as_str()) {
                        Some(c) => {
                            proof {
                                assert(cached_g == c.file_hashes@);
                            }
                            get_stale_files_from_cache(&c.file_hashes, hash_result)
                        },
                        None => get_stale_files_from_cache(&empty, hash_result),
                    }
                };
                let total_files = hash_result.file_hashes.len();
                CheckPlan::RunPerFile { command: command.clone(), stale_files, total_files }
            } else {
                CheckPlan::RunCommand { command: command.clone() }
            }
        },
    }
}


/// The status of every check of one configuration, computed in dependency
/// order and reported in declaration order, together with whether any
/// check is unverified.  Subproject staleness, computed by the caller for
/// each subproject name, seeds the dependency map so that checks
/// depending on a subproject resolve correctly.
pub fn status_of_config(
    project_root: &str,
    config: &crate::config::Config,
    cache: &CacheState,
    subproject_stale: &Vec<(String, bool)>,
) -> (r: Result<(Vec<(String, VerificationStatus)>, bool), crate::trailer::TrailerError>)
    requires
        cache.wf(),
        cache_file_maps_wf(cache.checks@),
    ensures
        r matches Ok(pair) ==> pair.0@.len() == crate::config::verifications_of(*config).len()
            && (forall|i: int|
            0 <= i < pair.0@.len() ==> (#[trigger] pair.0@[i]).0@ == crate::config::verifications_of(
                *config,
            )[i].name@) && (pair.1 == exists|i: int|
            0 <= i < pair.0@.len() && !((#[trigger] pair.0@[i]).1 is Verified)),
        r matches Err(crate::trailer::TrailerError::Cycle { name })
            ==> crate::graph::blocked_set_with(
            crate::config::verifications_of(*config),
            name@,
        ),
{
    let graph = match crate::graph::DependencyGraph::from_config(config) {
        Ok(g) => g,
        Err(crate::graph::GraphError::Cycle { name }) => {
            return Err(crate::trailer::TrailerError::Cycle { name });
        },
    };
    let waves = graph.execution_waves();
    let mut is_stale: Vec<(String, bool)> = Vec::new();
    let mut si: usize = 0;
    while si < subproject_stale.len()
        invariant
            si <= subproject_stale@.len(),
        decreases subproject_stale@.len() - si,
    {
        flag_set(&mut is_stale, subproject_stale[si].0.as_str(), subproject_stale[si].1);
        si = si + 1;
    }
    // Walk the waves, recording each check's status and feeding the
    // staleness map for its dependents.
    let mut statuses: Vec<(String, VerificationStatus)> = Vec::new();
    let tn = waves.len();
    let mut t: usize = 0;
    while t < tn
        invariant
            cache.wf(),
            cache_file_maps_wf(cache.checks@),
            tn == waves@.len(),
            t <= tn,
        decreases tn - t,
    {
        let wl = waves[t].len();
        let mut p: usize = 0;
        while p < wl
            invariant
                cache.wf(),
                cache_file_maps_wf(cache.checks@),
                tn == waves@.len(),
                t < tn,
                wl == waves@[t as int]@.len(),
                p <= wl,
            decreases wl - p,
        {
            let name = &waves[t][p];
            match config.get(name.as_str()) {
                None => (),
                Some(check) => {
                    match compute_check_hash(project_root, &check.cache_paths) {
                        Err(e) => {
                            return Err(crate::trailer::TrailerError::Hashing { error: e });
                        },
                        Ok(hash_result) => {
                            let status = compute_status(check, &hash_result, cache, &is_stale);
                            let fresh: bool = match status {
                                VerificationStatus::Verified => true,
                                _ => false,
                            };
                            flag_set(&mut is_stale, name.as_str(), !fresh);
                            statuses.push((name.clone(), status));
                        },
                    }
                },
            }
            p = p + 1;
        }
        t = t + 1;
    }
    // Report in declaration order.
    let verifications = config.verifications_only();
    let ghost decl = crate::config::verifications_of(*config);
    let mut out: Vec<(String, VerificationStatus)> = Vec::new();
    let mut has_unverified: bool = false;
    let n = verifications.len();
    let mut i: usize = 0;
    proof {
        assert(verifications@.map_values(|v: &Verification| *v) == decl);
    }
    while i < n
        invariant
            i <= n,
            n == verifications@.len(),
            verifications@.map_values(|v: &Verification| *v) == decl,
            n == decl.len(),
            out@.len() == i,
            forall|j: int| 0 <= j < i ==> (#[trigger] out@[j]).0@ == decl[j].name@,
            has_unverified == exists|j: int|
                0 <= j < out@.len() && !((#[trigger] out@[j]).1 is Verified),
        decreases n - i,
    {
        let v = verifications[i];
        proof {
            assert(verifications@.map_values(|x: &Verification| *x)[i as int] == decl[i as int]);
            assert(*verifications@[i as int] == decl[i as int]);
        }
        let mut found: Option<VerificationStatus> = None;
        let mut k: usize = 0;
        while k < statuses.len()
            invariant
                k <= statuses@.len(),
            decreases statuses@.len() - k,
        {
            if str_eq(statuses[k].0.as_str(), v.name.as_str()) && found.is_none() {
                found = Some(duplicate_status(&statuses[k].1));
            }
            k = k + 1;
        }
        let status = match found {
            Some(st) => st,
            None => VerificationStatus::Unverified {
                reason: UnverifiedReason::NeverRun,
            },
        };
        let ghost out0 = out@;
        let is_v: bool = match status {
            VerificationStatus::Verified => true,
            _ => false,
        };
        out.push((v.name.clone(), status));
        if !is_v {
            has_unverified = true;
        }
        proof {
            assert((exists|j: int|
                0 <= j < out@.len() && !((#[trigger] out@[j]).1 is Verified)) == ((exists|j: int|
                0 <= j < out0.len() && !((#[trigger] out0[j]).1 is Verified)) || !is_v)) by {
                if exists|j: int| 0 <= j < out@.len() && !((#[trigger] out@[j]).1 is Verified) {
                    let j = choose|j: int|
                        0 <= j < out@.len() && !((#[trigger] out@[j]).1 is Verified);
                    if j < out0.len() {
                        assert(out0[j] == out@[j]);
                    } else {
                        assert(!is_v);
                    }
                }
                if exists|j: int| 0 <= j < out0.len() && !((#[trigger] out0[j]).1 is Verified) {
                    let j = choose|j: int|
                        0 <= j < out0.len() && !((#[trigger] out0[j]).1 is Verified);
                    assert(out@[j] == out0[j]);
                }
                if !is_v {
                    assert(!((out@[out0.len() as int]).1 is Verified));
                }
            }
        }
        i = i + 1;
    }
    Ok((out, has_unverified))
}

/// An independent copy of one status value, agreeing in kind and, for a
/// file change, in the reported lines.
pub fn duplicate_status(s: &VerificationStatus) -> (r: VerificationStatus)
    ensures
        (r is Verified) == (s is Verified),
        (r is Untracked) == (s is Untracked),
        (r matches VerificationStatus::Unverified { .. }) == (s
            matches VerificationStatus::Unverified { .. }),
{
    match s {
        VerificationStatus::Verified => VerificationStatus::Verified,
        VerificationStatus::Untracked => VerificationStatus::Untracked,
        VerificationStatus::Unverified { reason } => VerificationStatus::Unverified {
            reason: match reason {
                UnverifiedReason::ConfigChanged => UnverifiedReason::ConfigChanged,
                UnverifiedReason::NeverRun => UnverifiedReason::NeverRun,
                UnverifiedReason::DependencyUnverified { dependency } => {
                    UnverifiedReason::DependencyUnverified { dependency: dependency.clone() }
                },
                UnverifiedReason::FilesChanged { changed_files } => {
                    let mut copied: Vec<String> = Vec::new();
                    let mut i: usize = 0;
                    while i < changed_files.len()
                        invariant
                            i <= changed_files@.len(),
                            copied@ =~= changed_files@.take(i as int),
                        decreases changed_files@.len() - i,
                    {
                        copied.push(changed_files[i].clone());
                        i = i + 1;
                    }
                    proof {
                        assert(copied@ =~= changed_files@);
                    }
                    UnverifiedReason::FilesChanged { changed_files: copied }
                },
            },
        },
    }
}

/// Whether anything is stale: some check is unverified, or some
/// subproject was reported stale.
pub fn stale_overall(has_unverified: bool, subproject_stale: &Vec<(String, bool)>) -> (b: bool)
    ensures
        b == (has_unverified || exists|i: int|
            0 <= i < subproject_stale@.len() && (#[trigger] subproject_stale@[i]).1),
{
    if has_unverified {
        return true;
    }
    let mut i: usize = 0;
    while i < subproject_stale.len()
        invariant
            i <= subproject_stale@.len(),
            forall|k: int| 0 <= k < i ==> !(#[trigger] subproject_stale@[k]).1,
        decreases subproject_stale@.len() - i,
    {
        if subproject_stale[i].1 {
            return true;
        }
        i = i + 1;
    }
    false
}

/// Whether a configuration has anything unverified: some check is not
/// verified, or some subproject was reported stale.
pub fn check_has_stale(
    project_root: &str,
    config: &crate::config::Config,
    cache: &CacheState,
    subproject_stale: &Vec<(String, bool)>,
) -> (r: Result<bool, crate::trailer::TrailerError>)
    requires
        cache.wf(),
        cache_file_maps_wf(cache.checks@),
    ensures
        r matches Ok(b) ==> ((exists|i: int|
            0 <= i < subproject_stale@.len() && (#[trigger] subproject_stale@[i]).1) ==> b),
        r matches Ok(b) ==> (!b ==> forall|i: int|
            0 <= i < subproject_stale@.len() ==> !(#[trigger] subproject_stale@[i]).1),
        r matches Err(crate::trailer::TrailerError::Cycle { name })
            ==> crate::graph::blocked_set_with(
            crate::config::verifications_of(*config),
            name@,
        ),
{
    let (_, has_unverified) = match status_of_config(
        project_root,
        config,
        cache,
        subproject_stale,
    ) {
        Ok(pair) => pair,
        Err(e) => {
            return Err(e);
        },
    };
    Ok(stale_overall(has_unverified, subproject_stale))
}

} // verus!
