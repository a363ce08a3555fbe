//! The declarative configuration: named checks with commands, tracked
//! paths, dependencies and metadata patterns, and subproject references.
//! Validation and the configuration hash live here.

use vstd::prelude::*;
use vstd::relations::sorted_by;
use vstd::relations::total_ordering;
use vstd::seq_lib::lemma_sorted_unique;

use crate::hasher::blake3_hex;
use crate::hasher::blake3_hex_of;
use crate::hasher::views_of;
use crate::strmap::assoc_map;
use crate::strmap::canonical_entries;
use crate::strmap::keys_sorted;
use crate::strmap::lemma_sorted_canonical;
use crate::strmap::StrMap;
use crate::text::dec_digits;
use crate::text::lemma_lex_lt_asymmetric;
use crate::text::lemma_lex_lt_connex;
use crate::text::lemma_lex_lt_transitive;
use crate::text::lex_lt;
use crate::text::str_eq;
use crate::text::str_lt;
use crate::text::u64_to_string;

verus! {

/// Non-strict lexicographic order on character sequences.
pub open spec fn lex_leq(a: Seq<char>, b: Seq<char>) -> bool {
    a == b || lex_lt(a, b)
}

/// The order as a function value, for sorting specifications.
pub open spec fn lex_leq_fn() -> spec_fn(Seq<char>, Seq<char>) -> bool {
    |a: Seq<char>, b: Seq<char>| lex_leq(a, b)
}

/// Non-strict lexicographic order is a total ordering.
pub proof fn lemma_lex_leq_total_ordering()
    ensures
        total_ordering(lex_leq_fn()),
{
    let leq = lex_leq_fn();
    assert forall|a: Seq<char>, b: Seq<char>| #[trigger] leq(a, b) && leq(b, a) implies a == b by {
        lemma_lex_lt_asymmetric(a, b);
    }
    assert forall|a: Seq<char>, b: Seq<char>, c: Seq<char>|
        #[trigger] leq(a, b) && #[trigger] leq(b, c) implies leq(a, c) by {
        if a != b && b != c {
            lemma_lex_lt_transitive(a, b, c);
        }
    }
    assert forall|a: Seq<char>, b: Seq<char>| #[trigger] leq(a, b) || #[trigger] leq(b, a) by {
        lemma_lex_lt_connex(a, b);
    }
}

/// Sort strings lexicographically.
pub fn sort_strings(v: &Vec<String>) -> (r: Vec<String>)
    ensures
        sorted_by(views_of(r@), lex_leq_fn()),
        views_of(r@).to_multiset() == views_of(v@).to_multiset(),
{
    broadcast use vstd::seq_lib::group_to_multiset_ensures;

    let mut out: Vec<String> = Vec::new();
    let n = v.len();
    let mut i: usize = 0;
    proof {
        assert(views_of(v@.take(0)) =~= Seq::<Seq<char>>::empty());
        assert(views_of(out@) =~= Seq::<Seq<char>>::empty());
        assert(views_of(out@).to_multiset() =~= views_of(v@.take(0)).to_multiset());
    }
    while i < n
        invariant
            i <= n,
            n == v@.len(),
            sorted_by(views_of(out@), lex_leq_fn()),
            views_of(out@).to_multiset() == views_of(v@.take(i as int)).to_multiset(),
        decreases n - i,
    {
        broadcast use vstd::seq_lib::group_to_multiset_ensures;

        let s = v[i].clone();
        let ghost outv = views_of(out@);
        let m = out.len();
        let mut p: usize = 0;
        while p < m && !str_lt(s.as_str(), out[p].as_str())
            invariant
                p <= m,
                m == outv.len(),
                views_of(out@) == outv,
                s@ == v@[i as int]@,
                forall|j: int| 0 <= j < p ==> !lex_lt(s@, #[trigger] outv[j]),
            decreases m - p,
        {
            p = p + 1;
        }
        proof {
            if p < m {
                assert(lex_lt(s@, outv[p as int]));
            }
        }
        out.insert(p, s);
        proof {
            let out2v = views_of(out@);
            let ki = p as int;
            assert forall|j: int| 0 <= j < out2v.len() implies out2v[j] == (if j < ki {
                outv[j]
            } else if j == ki {
                v@[i as int]@
            } else {
                outv[j - 1]
            }) by {}
            let leq = lex_leq_fn();
            assert forall|x: int, y: int| 0 <= x < y < out2v.len() implies #[trigger] leq(
                out2v[x],
                out2v[y],
            ) by {
                let sv = v@[i as int]@;
                if y < ki {
                } else if x < ki && y == ki {
                    // out[x] is not above s.
                    lemma_lex_lt_connex(sv, outv[x]);
                } else if x == ki {
                    if ki < outv.len() {
                        assert(lex_lt(sv, outv[ki]));
                        if y - 1 > ki {
                            assert(leq(outv[ki], outv[y - 1]));
                            if outv[ki] != outv[y - 1] {
                                lemma_lex_lt_transitive(sv, outv[ki], outv[y - 1]);
                            }
                        }
                    }
                } else if x < ki && y > ki {
                    lemma_lex_lt_connex(sv, outv[x]);
                    assert(leq(outv[x], sv)) by {
                        if lex_lt(sv, outv[x]) {
                            assert(false);
                        }
                    }
                    assert(lex_lt(sv, outv[ki]));
                    if y - 1 > ki {
                        assert(leq(outv[ki], outv[y - 1]));
                        if outv[ki] != outv[y - 1] {
                            lemma_lex_lt_transitive(sv, outv[ki], outv[y - 1]);
                        }
                    }
                    assert(lex_lt(sv, outv[y - 1]));
                    if outv[x] == sv {
                    } else {
                        lemma_lex_lt_transitive(outv[x], sv, outv[y - 1]);
                    }
                }
            }
            // One more element on each side of the multiset equation.
            assert(out2v.remove(ki) =~= outv);
            assert(out2v.remove(ki).to_multiset() =~= out2v.to_multiset().remove(out2v[ki]));
            assert(out2v[ki] == v@[i as int]@);
            assert(v@.take(i + 1).drop_last() =~= v@.take(i as int));
            assert(views_of(v@.take(i + 1)) =~= views_of(v@.take(i as int)).push(v@[i as int]@));
            assert(views_of(v@.take(i + 1)).to_multiset() =~= views_of(
                v@.take(i as int),
            ).to_multiset().insert(v@[i as int]@));
            assert(out2v.to_multiset() =~= views_of(v@.take(i + 1)).to_multiset()) by {
                let m1 = out2v.to_multiset();
                let m2 = views_of(v@.take(i + 1)).to_multiset();
                assert(m1.remove(out2v[ki]) == m2.remove(out2v[ki]));
                assert(m1.count(out2v[ki]) >= 1) by {
                    assert(out2v.contains(out2v[ki])) by {
                        assert(out2v[ki] == out2v[ki]);
                    }
                }
                assert(m2.count(out2v[ki]) >= 1);
                assert forall|x: Seq<char>| true implies #[trigger] m1.count(x) == m2.count(x) by {
                    if x == out2v[ki] {
                        assert(m1.remove(x).count(x) == m2.remove(x).count(x));
                    } else {
                        assert(m1.remove(out2v[ki]).count(x) == m2.remove(out2v[ki]).count(x));
                    }
                }
            }
        }
        i = i + 1;
    }
    proof {
        assert(v@.take(n as int) =~= v@);
    }
    out
}

/// How one metadata value is drawn out of command output.
#[derive(Debug)]
pub enum MetadataPattern {
    /// A bare regex; the first capture group is the value.
    Simple(String),
    /// A regex and a template; `$1`, `$2`, … in the template are replaced
    /// by the capture groups.
    WithReplacement(String, String),
}

/// The text standing for one pattern inside the configuration hash.
pub open spec fn pattern_chunk(p: MetadataPattern) -> Seq<char> {
    match p {
        MetadataPattern::Simple(s) => s@,
        MetadataPattern::WithReplacement(a, b) => a@ + seq!['|'] + b@,
    }
}

/// One verification check.
pub struct Verification {
    /// Unique name within its configuration.
    pub name: String,
    /// Shell command; a check without one is an aggregate, implicit from
    /// its dependencies.
    pub command: Option<String>,
    /// Glob patterns for the files whose contents decide freshness; empty
    /// means the check is untracked.
    pub cache_paths: Vec<String>,
    /// Names that must be verified before this check runs.
    pub depends_on: Vec<String>,
    /// Optional cap on execution time, in seconds.
    pub timeout_secs: Option<u64>,
    /// Metadata extraction patterns, keyed by field name.
    pub metadata: Vec<(String, MetadataPattern)>,
    /// Run the command once per stale file instead of once per check.
    pub per_file: bool,
}

/// A reference to a directory carrying its own configuration and lock
/// file.
pub struct Subproject {
    /// Unique name within the parent configuration.
    pub name: String,
    /// Directory path relative to the parent root.
    pub path: String,
}

/// One entry of a configuration: a check or a subproject.
pub enum VerificationItem {
    /// A subproject reference.
    Subproject(Subproject),
    /// A verification check.
    Verification(Verification),
}

/// The name of an item.
pub open spec fn item_name(item: VerificationItem) -> Seq<char> {
    match item {
        VerificationItem::Verification(v) => v.name@,
        VerificationItem::Subproject(s) => s.name@,
    }
}

impl VerificationItem {
    /// The name of this item.
    pub fn name(&self) -> (r: &str)
        ensures
            r@ == item_name(*self),
    {
        match self {
            VerificationItem::Verification(v) => v.name.as_str(),
            VerificationItem::Subproject(s) => s.name.as_str(),
        }
    }
}

/// The metadata patterns as key-to-chunk pairs.
pub open spec fn md_pairs(md: Seq<(String, MetadataPattern)>) -> Seq<(Seq<char>, Seq<char>)> {
    md.map_values(|e: (String, MetadataPattern)| (e.0@, pattern_chunk(e.1)))
}

/// The mapping that a pair sequence denotes when later pairs win.
pub open spec fn last_wins_map(s: Seq<(Seq<char>, Seq<char>)>) -> Map<Seq<char>, Seq<char>>
    decreases s.len(),
{
    if s.len() == 0 {
        Map::empty()
    } else {
        last_wins_map(s.drop_last()).insert(s.last().0, s.last().1)
    }
}

/// The `path,path,…` text of the sorted cache paths inside the
/// configuration hash.
pub open spec fn paths_chunk(paths: Seq<Seq<char>>) -> Seq<char>
    decreases paths.len(),
{
    if paths.len() == 0 {
        Seq::empty()
    } else {
        paths_chunk(paths.drop_last()) + paths.last() + seq![',']
    }
}

/// The `key=pattern,…` text of the sorted metadata patterns inside the
/// configuration hash.
pub open spec fn md_chunk(entries: Seq<(Seq<char>, Seq<char>)>) -> Seq<char>
    decreases entries.len(),
{
    if entries.len() == 0 {
        Seq::empty()
    } else {
        md_chunk(entries.drop_last()) + entries.last().0 + seq!['='] + entries.last().1 + seq![',']
    }
}

/// The text whose digest is the configuration hash.  Cache paths are
/// sorted and metadata keys are sorted, so the hash does not depend on
/// declaration order of either; the name and the dependencies are left
/// out on purpose, so rewiring a check does not invalidate it.
pub open spec fn config_preimage(v: Verification) -> Seq<char> {
    ("command:")@ + (match v.command {
        Some(c) => c@,
        None => Seq::empty(),
    }) + ("\n")@ + ("cache_paths:")@ + paths_chunk(views_of(v.cache_paths@).sort_by(lex_leq_fn()))
        + ("\n")@ + ("timeout:")@ + (match v.timeout_secs {
        Some(t) => dec_digits(t as int),
        None => Seq::empty(),
    }) + ("\n")@ + ("per_file:")@ + (if v.per_file {
        ("true")@
    } else {
        ("false")@
    }) + ("\n")@ + ("metadata:")@ + md_chunk(
        canonical_entries(last_wins_map(md_pairs(v.metadata@))),
    )
}

/// The configuration hash of a check, as a function of the check alone.
pub open spec fn config_hash_of(v: Verification) -> Seq<char> {
    blake3_hex_of(config_preimage(v))
}

impl Verification {
    /// Hash the fields that say what running this check means.  Two checks
    /// with the same command, paths, timeout, mode and patterns hash the
    /// same, whatever order the paths or patterns were written in.
    pub fn config_hash(&self) -> (r: String)
        ensures
            r@ == config_hash_of(*self),
            r@.len() == 64,
    {
        let mut preimage = String::new();
        preimage.append("command:");
        match &self.command {
            Some(c) => preimage.append(c.as_str()),
            None => (),
        }
        preimage.append("\n");
        preimage.append("cache_paths:");
        let sorted = sort_strings(&self.cache_paths);
        let ghost sorted_spec = views_of(self.cache_paths@).sort_by(lex_leq_fn());
        proof {
            lemma_lex_leq_total_ordering();
            views_of(self.cache_paths@).lemma_sort_by_ensures(lex_leq_fn());
            lemma_sorted_unique(views_of(sorted@), sorted_spec, lex_leq_fn());
            assert(views_of(sorted@) == sorted_spec);
            assert(sorted_spec.take(0) =~= Seq::<Seq<char>>::empty());
        }
        let ghost base = preimage@;
        let n = sorted.len();
        let mut i: usize = 0;
        while i < n
            invariant
                i <= n,
                n == sorted@.len(),
                views_of(sorted@) == sorted_spec,
                preimage@ == base + paths_chunk(sorted_spec.take(i as int)),
            decreases n - i,
        {
            proof {
                reveal_strlit(",");
                assert(sorted_spec.take(i + 1).drop_last() =~= sorted_spec.take(i as int));
                assert(sorted_spec.take(i + 1).last() == sorted_spec[i as int]);
            }
            preimage.append(sorted[i].as_str());
            preimage.append(",");
            i = i + 1;
        }
        proof {
            assert(sorted_spec.take(n as int) =~= sorted_spec);
        }
        preimage.append("\n");
        preimage.append("timeout:");
        match self.timeout_secs {
            Some(t) => {
                let ts = u64_to_string(t);
                preimage.append(ts.as_str());
            },
            None => (),
        }
        preimage.append("\n");
        preimage.append("per_file:");
        if self.per_file {
            preimage.append("true");
        } else {
            preimage.append("false");
        }
        preimage.append("\n");
        preimage.append("metadata:");
        // Collect the patterns into a sorted map; later pairs win, as in a
        // map keyed by field name.
        let mut md = StrMap::new();
        let mlen = self.metadata.len();
        let mut j: usize = 0;
        while j < mlen
            invariant
                j <= mlen,
                mlen == self.metadata@.len(),
                md.wf(),
                md@ == last_wins_map(md_pairs(self.metadata@.take(j as int))),
            decreases mlen - j,
        {
            let key = self.metadata[j].0.clone();
            let chunk: String = match &self.metadata[j].1 {
                MetadataPattern::Simple(s) => s.clone(),
                MetadataPattern::WithReplacement(a, b) => {
                    proof {
                        reveal_strlit("|");
                    }
                    let mut c = String::new();
                    c.append(a.as_str());
                    c.append("|");
                    c.append(b.as_str());
                    c
                },
            };
            proof {
                assert(md_pairs(self.metadata@.take(j + 1)).drop_last() =~= md_pairs(
                    self.metadata@.take(j as int),
                ));
                assert(md_pairs(self.metadata@.take(j + 1)).last() == (key@, chunk@));
            }
            md.insert(key, chunk);
            j = j + 1;
        }
        proof {
            assert(self.metadata@.take(mlen as int) =~= self.metadata@);
        }
        let ghost md_entries = canonical_entries(last_wins_map(md_pairs(self.metadata@)));
        proof {
            assert(keys_sorted(md.entries_view()) && assoc_map(md.entries_view()) == md@);
            assert(md_entries == md.entries_view()) by {
                let w = md.entries_view();
                assert(exists|s: Seq<(Seq<char>, Seq<char>)>|
                    keys_sorted(s) && #[trigger] assoc_map(s) == md@) by {
                    assert(keys_sorted(w) && assoc_map(w) == md@);
                }
                assert(keys_sorted(md_entries) && assoc_map(md_entries) == md@);
                lemma_sorted_canonical(md_entries, w);
            }
            assert(md_entries.take(0) =~= Seq::<(Seq<char>, Seq<char>)>::empty());
        }
        let ghost base2 = preimage@;
        let elen = md.len();
        let mut e: usize = 0;
        while e < elen
            invariant
                e <= elen,
                elen == md.entries_view().len(),
                md_entries == md.entries_view(),
                preimage@ == base2 + md_chunk(md_entries.take(e as int)),
            decreases elen - e,
        {
            proof {
                reveal_strlit("=");
                reveal_strlit(",");
                assert(md_entries.take(e + 1).drop_last() =~= md_entries.take(e as int));
                assert(md_entries.take(e + 1).last() == md_entries[e as int]);
            }
            preimage.append(md.key_at(e).as_str());
            preimage.append("=");
            preimage.append(md.val_at(e).as_str());
            preimage.append(",");
            e = e + 1;
        }
        proof {
            assert(md_entries.take(elen as int) =~= md_entries);
            assert(preimage@ == config_preimage(*self));
        }
        blake3_hex(preimage.as_str())
    }
}

/// Two checks whose fields agree up to the order of cache paths and of
/// metadata patterns have the same configuration hash.
pub proof fn lemma_config_hash_order_insensitive(v1: Verification, v2: Verification)
    requires
        v1.command == v2.command,
        v1.timeout_secs == v2.timeout_secs,
        v1.per_file == v2.per_file,
        views_of(v1.cache_paths@).to_multiset() == views_of(v2.cache_paths@).to_multiset(),
        last_wins_map(md_pairs(v1.metadata@)) == last_wins_map(md_pairs(v2.metadata@)),
    ensures
        config_hash_of(v1) == config_hash_of(v2),
{
    let leq = lex_leq_fn();
    lemma_lex_leq_total_ordering();
    views_of(v1.cache_paths@).lemma_sort_by_ensures(leq);
    views_of(v2.cache_paths@).lemma_sort_by_ensures(leq);
    lemma_sorted_unique(
        views_of(v1.cache_paths@).sort_by(leq),
        views_of(v2.cache_paths@).sort_by(leq),
        leq,
    );
    assert(views_of(v1.cache_paths@).sort_by(leq) == views_of(v2.cache_paths@).sort_by(leq));
    assert(config_preimage(v1) == config_preimage(v2));
}

/// The whole configuration: what `verify.yaml` declares.
pub struct Config {
    /// The declared items, in declaration order.
    pub verifications: Vec<VerificationItem>,
}

/// Why a configuration is rejected.
#[derive(Debug)]
pub enum ConfigError {
    /// Two items share a name.
    DuplicateName { name: String },
    /// A check depends on a name that no item carries.
    UnknownDependency { name: String, dependency: String },
    /// A check depends on itself.
    SelfDependency { name: String },
    /// A subproject's directory has no configuration file.
    MissingSubprojectConfig { name: String, path: String },
}

impl ConfigError {
    /// A human-readable description.
    pub fn message(&self) -> String {
        let mut m = String::new();
        match self {
            ConfigError::DuplicateName { name } => {
                m.append("Duplicate verification name: ");
                m.append(name.as_str());
            },
            ConfigError::UnknownDependency { name, dependency } => {
                m.append("Verification '");
                m.append(name.as_str());
                m.append("' depends on unknown check: ");
                m.append(dependency.as_str());
            },
            ConfigError::SelfDependency { name } => {
                m.append("Verification '");
                m.append(name.as_str());
                m.append("' cannot depend on itself");
            },
            ConfigError::MissingSubprojectConfig { name, path } => {
                m.append("Subproject '");
                m.append(name.as_str());
                m.append("' config not found: ");
                m.append(path.as_str());
            },
        }
        m
    }
}

/// Whether the item at the position is a check (not a subproject).
pub open spec fn is_verification(item: VerificationItem) -> bool {
    item is Verification
}

/// The checks of a configuration, in declaration order.
pub open spec fn verifications_of(c: Config) -> Seq<Verification> {
    c.verifications@.filter_map(
        |item: VerificationItem|
            match item {
                VerificationItem::Verification(v) => Some(v),
                VerificationItem::Subproject(_) => None,
            },
    )
}

/// The subprojects of a configuration, in declaration order.
pub open spec fn subprojects_of(c: Config) -> Seq<Subproject> {
    c.verifications@.filter_map(
        |item: VerificationItem|
            match item {
                VerificationItem::Subproject(s) => Some(s),
                VerificationItem::Verification(_) => None,
            },
    )
}

/// Whether some item carries the name.
pub open spec fn config_has_name(c: Config, name: Seq<char>) -> bool {
    exists|i: int|
        0 <= i < c.verifications@.len() && item_name(#[trigger] c.verifications@[i]) == name
}

/// Whether all item names are pairwise distinct.
pub open spec fn names_unique(c: Config) -> bool {
    forall|i: int, j: int|
        0 <= i < j < c.verifications@.len() ==> item_name(#[trigger] c.verifications@[i])
            != item_name(#[trigger] c.verifications@[j])
}

/// Whether every dependency of every check names some item.
pub open spec fn deps_resolve(c: Config) -> bool {
    forall|i: int, j: int|
        0 <= i < c.verifications@.len() && (#[trigger] c.verifications@[i]) is Verification && 0 <= j
            < c.verifications@[i]->Verification_0.depends_on@.len() ==> config_has_name(
            c,
            (#[trigger] c.verifications@[i]->Verification_0.depends_on@[j])@,
        )
}

/// Whether no check depends on itself.
pub open spec fn no_self_deps(c: Config) -> bool {
    forall|i: int, j: int|
        0 <= i < c.verifications@.len() && (#[trigger] c.verifications@[i]) is Verification && 0 <= j
            < c.verifications@[i]->Verification_0.depends_on@.len() ==> (
        #[trigger] c.verifications@[i]->Verification_0.depends_on@[j])@
            != c.verifications@[i]->Verification_0.name@
}

/// A structurally valid configuration: unique names, resolving
/// dependencies, no self-dependency.
pub open spec fn config_valid(c: Config) -> bool {
    names_unique(c) && deps_resolve(c) && no_self_deps(c)
}

impl Config {
    /// Whether some item carries the name.
    pub fn has_name(&self, name: &str) -> (r: bool)
        ensures
            r == config_has_name(*self, name@),
    {
        let n = self.verifications.len();
        let mut i: usize = 0;
        while i < n
            invariant
                i <= n,
                n == self.verifications@.len(),
                forall|k: int|
                    0 <= k < i ==> item_name(#[trigger] self.verifications@[k]) != name@,
            decreases n - i,
        {
            if str_eq(self.verifications[i].name(), name) {
                proof {
                    assert(item_name(self.verifications@[i as int]) == name@);
                }
                return true;
            }
            i = i + 1;
        }
        false
    }

    /// Check the structural rules: names unique, every dependency
    /// resolving, no check depending on itself.  Returns `Ok` exactly when
    /// all three hold.
    pub fn validate_structure(&self) -> (r: Result<(), ConfigError>)
        ensures
            r is Ok <==> config_valid(*self),
            r matches Err(e) ==> match e {
                ConfigError::DuplicateName { .. } => !names_unique(*self),
                ConfigError::UnknownDependency { .. } => !deps_resolve(*self),
                ConfigError::SelfDependency { .. } => !no_self_deps(*self),
                _ => false,
            },
    {
        let n = self.verifications.len();
        let mut i: usize = 0;
        while i < n
            invariant
                i <= n,
                n == self.verifications@.len(),
                forall|a: int, b: int|
                    0 <= a < b < i ==> item_name(#[trigger] self.verifications@[a]) != item_name(
                        #[trigger] self.verifications@[b],
                    ),
            decreases n - i,
        {
            let mut j: usize = 0;
            while j < i
                invariant
                    j <= i < n,
                    n == self.verifications@.len(),
                    forall|b: int|
                        0 <= b < j ==> item_name(#[trigger] self.verifications@[b]) != item_name(
                            self.verifications@[i as int],
                        ),
                decreases i - j,
            {
                if str_eq(self.verifications[j].name(), self.verifications[i].name()) {
                    let name = self.verifications[i].name();
                    let mut owned = String::new();
                    owned.append(name);
                    return Err(ConfigError::DuplicateName { name: owned });
                }
                j = j + 1;
            }
            i = i + 1;
        }
        let mut i: usize = 0;
        while i < n
            invariant
                i <= n,
                n == self.verifications@.len(),
                names_unique(*self),
                forall|a: int, b: int|
                    0 <= a < i && (#[trigger] self.verifications@[a]) is Verification && 0 <= b
                        < self.verifications@[a]->Verification_0.depends_on@.len() ==> (
                    config_has_name(
                        *self,
                        (#[trigger] self.verifications@[a]->Verification_0.depends_on@[b])@,
                    ) && self.verifications@[a]->Verification_0.depends_on@[b]@
                        != self.verifications@[a]->Verification_0.name@),
            decreases n - i,
        {
            match &self.verifications[i] {
                VerificationItem::Verification(v) => {
                    let dn = v.depends_on.len();
                    let mut j: usize = 0;
                    while j < dn
                        invariant
                            j <= dn,
                            i < n,
                            n == self.verifications@.len(),
                            self.verifications@[i as int] matches VerificationItem::Verification(w)
                                && w == *v,
                            dn == v.depends_on@.len(),
                            forall|b: int|
                                0 <= b < j ==> (config_has_name(
                                    *self,
                                    (#[trigger] v.depends_on@[b])@,
                                ) && v.depends_on@[b]@ != v.name@),
                        decreases dn - j,
                    {
                        let dep = &v.depends_on[j];
                        if !self.has_name(dep.as_str()) {
                            return Err(
                                ConfigError::UnknownDependency {
                                    name: v.name.clone(),
                                    dependency: dep.clone(),
                                },
                            );
                        }
                        if str_eq(dep.as_str(), v.name.as_str()) {
                            return Err(ConfigError::SelfDependency { name: v.name.clone() });
                        }
                        j = j + 1;
                    }
                },
                VerificationItem::Subproject(_) => (),
            }
            i = i + 1;
        }
        Ok(())
    }

    /// Check the structural rules and that every subproject's directory
    /// holds a configuration file on disk.
    pub fn validate(&self, base_path: &str) -> (r: Result<(), ConfigError>)
        ensures
            r is Ok ==> config_valid(*self),
            !config_valid(*self) ==> r is Err,
    {
        match self.validate_structure() {
            Err(e) => {
                return Err(e);
            },
            Ok(()) => (),
        }
        let n = self.verifications.len();
        let mut i: usize = 0;
        while i < n
            invariant
                n == self.verifications@.len(),
                i <= n,
            decreases n - i,
        {
            match &self.verifications[i] {
                VerificationItem::Subproject(sub) => {
                    let dir = crate::hasher::join_path(base_path, sub.path.as_str());
                    let config_file = crate::hasher::join_path(dir.as_str(), "verify.yaml");
                    if !crate::hasher::path_is_file(config_file.as_str()) {
                        return Err(
                            ConfigError::MissingSubprojectConfig {
                                name: sub.name.clone(),
                                path: config_file,
                            },
                        );
                    }
                },
                VerificationItem::Verification(_) => (),
            }
            i = i + 1;
        }
        Ok(())
    }

    /// Find a check by name; subprojects are not found here.
    pub fn get(&self, name: &str) -> (r: Option<&Verification>)
        ensures
            match r {
                Some(v) => v.name@ == name@ && exists|i: int|
                    0 <= i < self.verifications@.len() && #[trigger] self.verifications@[i]
                        == VerificationItem::Verification(*v),
                None => forall|i: int|
                    0 <= i < self.verifications@.len() && (
                    #[trigger] self.verifications@[i]) is Verification
                        ==> self.verifications@[i]->Verification_0.name@ != name@,
            },
    {
        let n = self.verifications.len();
        let mut i: usize = 0;
        while i < n
            invariant
                i <= n,
                n == self.verifications@.len(),
                forall|k: int|
                    0 <= k < i && (#[trigger] self.verifications@[k]) is Verification
                        ==> self.verifications@[k]->Verification_0.name@ != name@,
            decreases n - i,
        {
            match &self.verifications[i] {
                VerificationItem::Verification(v) => {
                    if str_eq(v.name.as_str(), name) {
                        proof {
                            assert(self.verifications@[i as int]
                                == VerificationItem::Verification(*v));
                        }
                        return Some(v);
                    }
                },
                VerificationItem::Subproject(_) => (),
            }
            i = i + 1;
        }
        None
    }

    /// Find a subproject by name; checks are not found here.
    pub fn get_subproject(&self, name: &str) -> (r: Option<&Subproject>)
        ensures
            match r {
                Some(s) => s.name@ == name@ && exists|i: int|
                    0 <= i < self.verifications@.len() && #[trigger] self.verifications@[i]
                        == VerificationItem::Subproject(*s),
                None => forall|i: int|
                    0 <= i < self.verifications@.len() && (
                    #[trigger] self.verifications@[i]) is Subproject
                        ==> self.verifications@[i]->Subproject_0.name@ != name@,
            },
    {
        let n = self.verifications.len();
        let mut i: usize = 0;
        while i < n
            invariant
                i <= n,
                n == self.verifications@.len(),
                forall|k: int|
                    0 <= k < i && (#[trigger] self.verifications@[k]) is Subproject
                        ==> self.verifications@[k]->Subproject_0.name@ != name@,
            decreases n - i,
        {
            match &self.verifications[i] {
                VerificationItem::Subproject(s) => {
                    if str_eq(s.name.as_str(), name) {
                        proof {
                            assert(self.verifications@[i as int] == VerificationItem::Subproject(
                                *s,
                            ));
                        }
                        return Some(s);
                    }
                },
                VerificationItem::Verification(_) => (),
            }
            i = i + 1;
        }
        None
    }

    /// Whether the name refers to a subproject.
    pub fn is_subproject(&self, name: &str) -> (r: bool)
        ensures
            r == exists|i: int|
                0 <= i < self.verifications@.len() && (
                #[trigger] self.verifications@[i]) is Subproject
                    && self.verifications@[i]->Subproject_0.name@ == name@,
    {
        match self.get_subproject(name) {
            Some(s) => {
                proof {
                    let i = choose|i: int|
                        0 <= i < self.verifications@.len() && #[trigger] self.verifications@[i]
                            == VerificationItem::Subproject(*s);
                    assert(self.verifications@[i] is Subproject);
                }
                true
            },
            None => false,
        }
    }

    /// All checks, in declaration order.
    pub fn verifications_only(&self) -> (r: Vec<&Verification>)
        ensures
            r@.map_values(|v: &Verification| *v) == verifications_of(*self),
    {
        let f = |item: VerificationItem| -> Option<Verification>
            {
                match item {
                    VerificationItem::Verification(v) => Some(v),
                    VerificationItem::Subproject(_) => None,
                }
            };
        let n = self.verifications.len();
        let mut out: Vec<&Verification> = Vec::new();
        let mut i: usize = 0;
        while i < n
            invariant
                i <= n,
                n == self.verifications@.len(),
                out@.map_values(|v: &Verification| *v) =~= self.verifications@.take(
                    i as int,
                ).filter_map(
                    |item: VerificationItem|
                        match item {
                            VerificationItem::Verification(v) => Some(v),
                            VerificationItem::Subproject(_) => None,
                        },
                ),
            decreases n - i,
        {
            proof {
                assert(self.verifications@.take(i + 1).drop_last() =~= self.verifications@.take(
                    i as int,
                ));
                assert(self.verifications@.take(i + 1).last() == self.verifications@[i as int]);
            }
            match &self.verifications[i] {
                VerificationItem::Verification(v) => {
                    out.push(v);
                },
                VerificationItem::Subproject(_) => (),
            }
            i = i + 1;
        }
        proof {
            assert(self.verifications@.take(n as int) =~= self.verifications@);
        }
        out
    }

    /// All subprojects, in declaration order.
    pub fn subprojects(&self) -> (r: Vec<&Subproject>)
        ensures
            r@.map_values(|s: &Subproject| *s) == subprojects_of(*self),
    {
        let n = self.verifications.len();
        let mut out: Vec<&Subproject> = Vec::new();
        let mut i: usize = 0;
        while i < n
            invariant
                i <= n,
                n == self.verifications@.len(),
                out@.map_values(|s: &Subproject| *s) =~= self.verifications@.take(
                    i as int,
                ).filter_map(
                    |item: VerificationItem|
                        match item {
                            VerificationItem::Subproject(s) => Some(s),
                            VerificationItem::Verification(_) => None,
                        },
                ),
            decreases n - i,
        {
            proof {
                assert(self.verifications@.take(i + 1).drop_last() =~= self.verifications@.take(
                    i as int,
                ));
                assert(self.verifications@.take(i + 1).last() == self.verifications@[i as int]);
            }
            match &self.verifications[i] {
                VerificationItem::Subproject(s) => {
                    out.push(s);
                },
                VerificationItem::Verification(_) => (),
            }
            i = i + 1;
        }
        proof {
            assert(self.verifications@.take(n as int) =~= self.verifications@);
        }
        out
    }
}

/// A prefix's filtered checks are a prefix of the whole's.
proof fn lemma_filter_map_prefix(
    s: Seq<VerificationItem>,
    f: spec_fn(VerificationItem) -> Option<Verification>,
    i: int,
)
    requires
        0 <= i <= s.len(),
    ensures
        s.filter_map(f).len() >= s.take(i).filter_map(f).len(),
        forall|j: int|
            0 <= j < s.take(i).filter_map(f).len() ==> #[trigger] s.filter_map(f)[j] == s.take(
                i,
            ).filter_map(f)[j],
    decreases s.len() - i,
{
    if i < s.len() {
        s.lemma_filter_map_take_succ(f, i);
        lemma_filter_map_prefix(s, f, i + 1);
        assert forall|j: int|
            0 <= j < s.take(i).filter_map(f).len() implies #[trigger] s.filter_map(f)[j] == s.take(
            i,
        ).filter_map(f)[j] by {
            assert(s.take(i + 1).filter_map(f)[j] == s.take(i).filter_map(f)[j]);
        }
    } else {
        assert(s.take(i) =~= s);
    }
}

/// Every check item stands somewhere in the filtered check list.
pub proof fn lemma_verification_listed(c: Config, i: int)
    requires
        0 <= i < c.verifications@.len(),
        c.verifications@[i] is Verification,
    ensures
        exists|j: int|
            0 <= j < verifications_of(c).len() && #[trigger] verifications_of(c)[j]
                == c.verifications@[i]->Verification_0,
{
    let s = c.verifications@;
    let f = |item: VerificationItem| -> Option<Verification>
        {
            match item {
                VerificationItem::Verification(v) => Some(v),
                VerificationItem::Subproject(_) => None,
            }
        };
    s.lemma_filter_map_take_succ(f, i);
    let pre = s.take(i).filter_map(f);
    assert(s.take(i + 1).filter_map(f)[pre.len() as int]
        == c.verifications@[i]->Verification_0);
    lemma_filter_map_prefix(s, f, i + 1);
    assert(verifications_of(c)[pre.len() as int] == c.verifications@[i]->Verification_0);
}

/// Under unique names, two check items carrying one name are one item.
pub proof fn lemma_unique_name_same_check(c: Config, i: int, j: int)
    requires
        names_unique(c),
        0 <= i < c.verifications@.len(),
        0 <= j < c.verifications@.len(),
        c.verifications@[i] is Verification,
        c.verifications@[j] is Verification,
        c.verifications@[i]->Verification_0.name@ == c.verifications@[j]->Verification_0.name@,
    ensures
        c.verifications@[i] == c.verifications@[j],
{
    if i != j {
        assert(item_name(c.verifications@[i]) == item_name(c.verifications@[j]));
        assert(false);
    }
}

/// A starting configuration for a typical project.
pub fn generate_example_config() -> (r: String) {
    let mut c = String::new();
    c.append("# verify configuration file\n");
    c.append("# Run `verify` to execute all stale checks, or `verify status` to see check states\n");
    c.append("\n");
    c.append("verifications:\n");
    c.append("  - name: build\n");
    c.append("    command: npm run build\n");
    c.append("    cache_paths:\n");
    c.append("      - \"src/**/*.ts\"\n");
    c.append("      - \"src/**/*.tsx\"\n");
    c.append("      - \"package.json\"\n");
    c.append("      - \"tsconfig.json\"\n");
    c.append("\n");
    c.append("  - name: typecheck\n");
    c.append("    command: npm run typecheck\n");
    c.append("    cache_paths:\n");
    c.append("      - \"src/**/*.ts\"\n");
    c.append("      - \"src/**/*.tsx\"\n");
    c.append("      - \"tsconfig.json\"\n");
    c.append("\n");
    c.append("  - name: lint\n");
    c.append("    command: npm run lint\n");
    c.append("    cache_paths:\n");
    c.append("      - \"src/**/*.ts\"\n");
    c.append("      - \"src/**/*.tsx\"\n");
    c.append("      - \".eslintrc*\"\n");
    c.append("\n");
    c.append("  - name: test\n");
    c.append("    command: npm test\n");
    c.append("    depends_on: [build]\n");
    c.append("    cache_paths:\n");
    c.append("      - \"src/**/*.ts\"\n");
    c.append("      - \"src/**/*.tsx\"\n");
    c.append("      - \"tests/**/*.ts\"\n");
    c.append("      - \"jest.config.*\"\n");
    c
}

} // verus!
