//! Forge export bundles: `FabricAIJob`, `FabricGpuNode` and `FabricQuota`
//! documents turned into jobs, a cluster and tenant quotas.

use vstd::prelude::*;
use crate::cluster::Cluster;
use crate::config::{
    ConfigError, HardwareProfile, find_profile, has_mig_job, any_mig_job, known_scheduler, run_outcome, policy_run,
    run_to_completion_with_policy,
};
use crate::metrics::SimulationMetrics;
use crate::mig::MigProfileRegistry;
use crate::resource::{GpuSelectionPolicy, ResourceManager};
use crate::mig::{decimal, push_decimal};
use crate::models::{Gpu, Job, JobState, Node, NodeView, opt_view};
use crate::strings::str_eq;
use crate::text::{parse_u32, parsed_u32};
use crate::yaml::{YamlValue, bool_of, get_in, get_opt, int_of, seq_of, spec_get, str_of};

verus! {

/// Maps the `gpuType` names of Forge documents to hardware profile names.
#[derive(Debug)]
pub struct GpuTypeRegistry {
    pub mappings: Vec<(String, String)>,
}

/// Calibrated runtime and memory of a model on one GPU type.
#[derive(Debug, Clone, Copy)]
pub struct ModelProfileEntry {
    pub runtime_seconds: u64,
    pub gpu_memory_gb: u64,
}

/// Calibrated entries of a model, keyed by GPU type.
#[derive(Debug)]
pub struct ModelProfile {
    pub model: String,
    pub profiles: Vec<(String, ModelProfileEntry)>,
}

/// The jobs and the cluster a Forge bundle describes.
#[derive(Debug)]
pub struct ForgeBundle {
    pub jobs: Vec<Job>,
    pub cluster: Cluster,
}

/// The value of the first mapping entry with key `key`.
pub open spec fn registry_lookup(entries: Seq<(String, String)>, key: Seq<char>) -> Option<Seq<char>>
    decreases entries.len(),
{
    if entries.len() == 0 {
        None
    } else if entries[0].0@ == key {
        Some(entries[0].1@)
    } else {
        registry_lookup(entries.drop_first(), key)
    }
}

/// The hardware profile name a `gpuType` maps to.
fn lookup_gpu_type(gpu_type: &str, registry: &GpuTypeRegistry) -> (r: Option<String>)
    ensures
        opt_view(r) == registry_lookup(registry.mappings@, gpu_type@),
{
    let m = &registry.mappings;
    let mut i: usize = 0;
    assert(m@.skip(0) =~= m@);
    while i < m.len()
        invariant
            m@ == registry.mappings@,
            i <= m@.len(),
            registry_lookup(m@, gpu_type@) == registry_lookup(m@.skip(i as int), gpu_type@),
        decreases m@.len() - i,
    {
        assert(m@.skip(i as int).drop_first() =~= m@.skip(i as int + 1));
        assert(m@.skip(i as int)[0] == m@[i as int]);
        if str_eq(m[i].0.as_str(), gpu_type) {
            return Some(m[i].1.clone());
        }
        i = i + 1;
    }
    None
}

pub open spec fn unknown_gpu_type_message(gpu_type: Seq<char>) -> Seq<char> {
    "unknown gpuType '"@ + gpu_type + "'"@
}

/// The hardware profile name of a `gpuType`; an unknown type is an error.
pub fn map_gpu_type(gpu_type: &str, registry: &GpuTypeRegistry) -> (r: Result<String, ConfigError>)
    ensures
        match registry_lookup(registry.mappings@, gpu_type@) {
            Some(p) => r matches Ok(s) && s@ == p,
            None => r matches Err(ConfigError::Invalid(m)) && m@ == unknown_gpu_type_message(gpu_type@),
        },
{
    match lookup_gpu_type(gpu_type, registry) {
        Some(p) => Ok(p),
        None => {
            let mut m = String::from_str("unknown gpuType '");
            m.append(gpu_type);
            m.append("'");
            proof {
                reveal_strlit("unknown gpuType '");
                reveal_strlit("'");
            }
            Err(ConfigError::Invalid(m))
        },
    }
}

/// The `kind` of a document.
pub open spec fn kind_spec(doc: YamlValue) -> Option<Seq<char>> {
    str_of(spec_get(doc, "kind"@))
}

/// The `apiVersion` of a document.
pub open spec fn api_version_spec(doc: YamlValue) -> Option<Seq<char>> {
    str_of(spec_get(doc, "apiVersion"@))
}

pub fn kind_of(doc: &YamlValue) -> (r: Option<&str>)
    ensures
        match r {
            Some(s) => kind_spec(*doc) == Some(s@),
            None => kind_spec(*doc) is None,
        },
{
    match doc.get("kind") {
        Some(k) => k.as_str(),
        None => None,
    }
}

pub fn api_version_of(doc: &YamlValue) -> (r: Option<&str>)
    ensures
        match r {
            Some(s) => api_version_spec(*doc) == Some(s@),
            None => api_version_spec(*doc) is None,
        },
{
    match doc.get("apiVersion") {
        Some(k) => k.as_str(),
        None => None,
    }
}

/// `kind_spec(doc)` is `kind`.
fn has_kind(doc: &YamlValue, kind: &str) -> (r: bool)
    ensures
        r == (kind_spec(*doc) == Some(kind@)),
{
    match kind_of(doc) {
        Some(k) => str_eq(k, kind),
        None => false,
    }
}

/// Why a document is not a Forge document, if it is not: a missing or
/// foreign `apiVersion`.
pub open spec fn forge_doc_error(doc: YamlValue) -> Option<Seq<char>> {
    match api_version_spec(doc) {
        Some(v) => if v == "forge.ai/v1"@ {
            None
        } else {
            Some("unsupported apiVersion '"@ + v + "', expected 'forge.ai/v1'"@)
        },
        None => Some("missing apiVersion"@),
    }
}

/// Accepts a document of API group `forge.ai/v1`.
pub fn validate_forge_doc(doc: &YamlValue) -> (r: Result<(), ConfigError>)
    ensures
        r is Ok <==> forge_doc_error(*doc) is None,
        r matches Err(ConfigError::Invalid(m)) ==> forge_doc_error(*doc) == Some(m@),
{
    proof {
        reveal_strlit("forge.ai/v1");
    }
    match api_version_of(doc) {
        Some(v) => {
            if str_eq(v, "forge.ai/v1") {
                Ok(())
            } else {
                let mut m = String::from_str("unsupported apiVersion '");
                m.append(v);
                m.append("', expected 'forge.ai/v1'");
                proof {
                    reveal_strlit("unsupported apiVersion '");
                    reveal_strlit("', expected 'forge.ai/v1'");
                }
                Err(ConfigError::Invalid(m))
            }
        },
        None => {
            proof {
                reveal_strlit("missing apiVersion");
            }
            Err(ConfigError::Invalid(String::from_str("missing apiVersion")))
        },
    }
}

/// The documents one parsed document stands for: none for an empty one,
/// the `items` of a `kind: List` wrapper (as `kubectl get -o yaml`
/// writes), else the document itself.
pub open spec fn expand_doc(d: YamlValue) -> Seq<YamlValue> {
    if d is Null {
        Seq::empty()
    } else if kind_spec(d) == Some("List"@) {
        match seq_of(spec_get(d, "items"@)) {
            Some(items) => items,
            None => Seq::empty(),
        }
    } else {
        seq![d]
    }
}

/// The documents of a parsed stream, lists unwrapped and empty ones dropped.
pub open spec fn flattened(docs: Seq<YamlValue>) -> Seq<YamlValue>
    decreases docs.len(),
{
    if docs.len() == 0 {
        Seq::empty()
    } else {
        flattened(docs.drop_last()) + expand_doc(docs.last())
    }
}

/// Position of the first entry with key `key`.
fn find_entry(entries: &Vec<(String, YamlValue)>, key: &str) -> (r: Option<usize>)
    ensures
        match r {
            Some(i) => i < entries@.len() && crate::yaml::entry_value(entries@, key@) == Some(
                entries@[i as int].1,
            ),
            None => crate::yaml::entry_value(entries@, key@) is None,
        },
{
    let mut i: usize = 0;
    assert(entries@.skip(0) =~= entries@);
    while i < entries.len()
        invariant
            i <= entries@.len(),
            crate::yaml::entry_value(entries@, key@) == crate::yaml::entry_value(entries@.skip(i as int), key@),
        decreases entries@.len() - i,
    {
        assert(entries@.skip(i as int).drop_first() =~= entries@.skip(i as int + 1));
        if str_eq(entries[i].0.as_str(), key) {
            return Some(i);
        }
        i = i + 1;
    }
    None
}

/// The documents `doc` stands for (see `expand_doc`).
fn expand_document(doc: YamlValue) -> (r: Vec<YamlValue>)
    ensures
        r@ == expand_doc(doc),
{
    if doc.is_null() {
        return Vec::new();
    }
    proof {
        reveal_strlit("List");
    }
    if !has_kind(&doc, "List") {
        let mut v = Vec::new();
        v.push(doc);
        return v;
    }
    match doc {
        YamlValue::Mapping(mut entries) => {
            match find_entry(&entries, "items") {
                Some(i) => {
                    let (_, value) = entries.remove(i);
                    match value {
                        YamlValue::Sequence(items) => items,
                        _ => Vec::new(),
                    }
                },
                None => Vec::new(),
            }
        },
        _ => Vec::new(),
    }
}

/// The documents of a parsed YAML stream: empty documents dropped and
/// each `kind: List` wrapper replaced by its `items`.
pub fn flatten_documents(docs: Vec<YamlValue>) -> (r: Vec<YamlValue>)
    ensures
        r@ == flattened(docs@),
{
    let ghost all = docs@;
    let total = docs.len();
    let mut rest = docs;
    let mut out: Vec<YamlValue> = Vec::new();
    let mut k: usize = 0;
    while rest.len() > 0
        invariant
            rest@ == all.skip(k as int),
            k <= all.len(),
            all.len() == total,
            out@ == flattened(all.take(k as int)),
        decreases rest@.len(),
    {
        assert(k < all.len());
        let doc = rest.remove(0);
        assert(doc == all[k as int]);
        assert(rest@ =~= all.skip(k as int + 1));
        let mut more = expand_document(doc);
        out.append(&mut more);
        assert(all.take(k as int + 1).drop_last() =~= all.take(k as int));
        k = k + 1;
    }
    assert(all.take(k as int) =~= all);
    out
}

/// The `FabricQuota` documents of a stream, in order, each required to be
/// a Forge document.
pub open spec fn quota_docs(docs: Seq<YamlValue>) -> Seq<YamlValue>
    decreases docs.len(),
{
    if docs.len() == 0 {
        Seq::empty()
    } else if kind_spec(docs.last()) == Some("FabricQuota"@) {
        quota_docs(docs.drop_last()).push(docs.last())
    } else {
        quota_docs(docs.drop_last())
    }
}

/// The error of the first `FabricQuota` document that is not a Forge
/// document, if any.
pub open spec fn quota_docs_error(docs: Seq<YamlValue>) -> Option<Seq<char>>
    decreases docs.len(),
{
    if docs.len() == 0 {
        None
    } else if kind_spec(docs[0]) == Some("FabricQuota"@) && forge_doc_error(docs[0]) is Some {
        forge_doc_error(docs[0])
    } else {
        quota_docs_error(docs.drop_first())
    }
}

proof fn lemma_quota_docs_error_step(docs: Seq<YamlValue>, k: int)
    requires
        0 <= k < docs.len(),
        quota_docs_error(docs.take(k)) is None,
        !(kind_spec(docs[k]) == Some("FabricQuota"@) && forge_doc_error(docs[k]) is Some),
    ensures
        quota_docs_error(docs.take(k + 1)) is None,
    decreases k,
{
    assert(docs.take(k + 1)[0] == docs[0]);
    if k > 0 {
        assert(docs.take(k)[0] == docs[0]);
        assert(docs.take(k).drop_first() =~= docs.drop_first().take(k - 1));
        assert(docs.take(k + 1).drop_first() =~= docs.drop_first().take(k));
        lemma_quota_docs_error_step(docs.drop_first(), k - 1);
    } else {
        assert(docs.take(k + 1).drop_first() =~= Seq::<YamlValue>::empty());
    }
}

proof fn lemma_quota_docs_error_found(docs: Seq<YamlValue>, k: int)
    requires
        0 <= k < docs.len(),
        quota_docs_error(docs.take(k)) is None,
        kind_spec(docs[k]) == Some("FabricQuota"@),
        forge_doc_error(docs[k]) is Some,
    ensures
        quota_docs_error(docs) == forge_doc_error(docs[k]),
    decreases k,
{
    if k > 0 {
        assert(docs.take(k).drop_first() =~= docs.drop_first().take(k - 1));
        lemma_quota_docs_error_found(docs.drop_first(), k - 1);
    }
}

/// The `FabricQuota` documents among `docs`, in order; one that is not a
/// Forge document is an error.
pub fn parse_fabric_quotas(docs: Vec<YamlValue>) -> (r: Result<Vec<YamlValue>, ConfigError>)
    ensures
        match quota_docs_error(docs@) {
            Some(e) => r matches Err(ConfigError::Invalid(m)) && m@ == e,
            None => r matches Ok(q) && q@ == quota_docs(docs@),
        },
{
    proof {
        reveal_strlit("FabricQuota");
    }
    let ghost all = docs@;
    let total = docs.len();
    let mut rest = docs;
    let mut out: Vec<YamlValue> = Vec::new();
    let mut k: usize = 0;
    while rest.len() > 0
        invariant
            rest@ == all.skip(k as int),
            k <= all.len(),
            all.len() == total,
            all == docs@,
            out@ == quota_docs(all.take(k as int)),
            quota_docs_error(all.take(k as int)) is None,
        decreases rest@.len(),
    {
        assert(k < all.len());
        let doc = rest.remove(0);
        assert(doc == all[k as int]);
        assert(rest@ =~= all.skip(k as int + 1));
        assert(all.take(k as int + 1).drop_last() =~= all.take(k as int));
        if has_kind(&doc, "FabricQuota") {
            match validate_forge_doc(&doc) {
                Ok(()) => {},
                Err(e) => {
                    proof {
                        lemma_quota_docs_error_found(all, k as int);
                        assert(quota_docs_error(all) == forge_doc_error(doc));
                    }
                    return Err(e);
                },
            }
            out.push(doc);
        }
        proof {
            lemma_quota_docs_error_step(all, k as int);
        }
        k = k + 1;
    }
    assert(all.take(k as int) =~= all);
    Ok(out)
}

/// The team and GPU limit a quota document gives, when it has both.
pub open spec fn quota_pair(q: YamlValue) -> Option<(Seq<char>, u32)> {
    let sp = spec_get(q, "spec"@);
    let team = str_of(get_opt(sp, "team"@));
    let max_gpus = int_of(get_opt(get_opt(sp, "gpuQuota"@), "maxGPUs"@));
    if team is Some && max_gpus is Some {
        Some((team->0, max_gpus->0 as u32))
    } else {
        None
    }
}

/// The tenant quotas of a list of quota documents: a later document for
/// the same team replaces an earlier one.
pub open spec fn quota_map(qs: Seq<YamlValue>) -> Map<Seq<char>, u32>
    decreases qs.len(),
{
    if qs.len() == 0 {
        Map::empty()
    } else {
        let m = quota_map(qs.drop_last());
        match quota_pair(qs.last()) {
            Some(p) => m.insert(p.0, p.1),
            None => m,
        }
    }
}

/// `v` holds exactly the entries of `m`, each key once.
pub open spec fn pairs_are_map(v: Seq<(String, u32)>, m: Map<Seq<char>, u32>) -> bool {
    &&& forall|i: int, j: int| 0 <= i < j < v.len() ==> (#[trigger] v[i]).0@ != (#[trigger] v[j]).0@
    &&& forall|i: int| 0 <= i < v.len() ==> m.contains_key((#[trigger] v[i]).0@) && m[v[i].0@] == v[i].1
    &&& forall|k: Seq<char>| #[trigger] m.contains_key(k) ==> exists|i: int| 0 <= i < v.len() && (#[trigger] v[i]).0@ == k
}

fn quota_pair_of(q: &YamlValue) -> (r: Option<(String, u32)>)
    ensures
        match quota_pair(*q) {
            Some(p) => r matches Some(x) && x.0@ == p.0 && x.1 == p.1,
            None => r is None,
        },
{
    let sp = q.get("spec");
    let team = match get_in(sp, "team") {
        Some(t) => t.as_str(),
        None => None,
    };
    let max_gpus = match get_in(get_in(sp, "gpuQuota"), "maxGPUs") {
        Some(m) => m.as_i64(),
        None => None,
    };
    match (team, max_gpus) {
        (Some(t), Some(m)) => Some((String::from_str(t), m as u32)),
        _ => None,
    }
}

/// The tenant quotas the quota documents set, keyed by team.
pub fn parse_tenant_quotas(quotas: &Vec<YamlValue>) -> (r: Vec<(String, u32)>)
    ensures
        pairs_are_map(r@, quota_map(quotas@)),
{
    let mut r: Vec<(String, u32)> = Vec::new();
    let mut i: usize = 0;
    while i < quotas.len()
        invariant
            i <= quotas@.len(),
            pairs_are_map(r@, quota_map(quotas@.take(i as int))),
        decreases quotas@.len() - i,
    {
        assert(quotas@.take(i as int + 1).drop_last() =~= quotas@.take(i as int));
        let ghost m0 = quota_map(quotas@.take(i as int));
        match quota_pair_of(&quotas[i]) {
            Some((team, max_gpus)) => {
                let ghost old_r = r@;
                let mut j: usize = 0;
                while j < r.len() && !str_eq(r[j].0.as_str(), team.as_str())
                    invariant
                        j <= r@.len(),
                        forall|a: int| 0 <= a < j ==> (#[trigger] r@[a]).0@ != team@,
                    decreases r@.len() - j,
                {
                    j = j + 1;
                }
                let ghost m1 = m0.insert(team@, max_gpus);
                if j < r.len() {
                    r.set(j, (team, max_gpus));
                    proof {
                        assert forall|k: Seq<char>| #[trigger] m1.contains_key(k) implies exists|a: int|
                            0 <= a < r@.len() && (#[trigger] r@[a]).0@ == k by {
                            if k != r@[j as int].0@ {
                                let a = choose|a: int| 0 <= a < old_r.len() && (#[trigger] old_r[a]).0@ == k;
                                assert(r@[a] == old_r[a]);
                            }
                        }
                        assert forall|a: int, b: int| 0 <= a < b < r@.len() implies (#[trigger] r@[a]).0@
                            != (#[trigger] r@[b]).0@ by {
                            assert(old_r[a].0@ != old_r[b].0@);
                        }
                        assert forall|a: int| 0 <= a < r@.len() implies m1.contains_key((#[trigger] r@[a]).0@)
                            && m1[r@[a].0@] == r@[a].1 by {
                            if a != j {
                                assert(old_r[a].0@ != old_r[j as int].0@);
                            }
                        }
                    }
                } else {
                    r.push((team, max_gpus));
                    proof {
                        assert forall|k: Seq<char>| #[trigger] m1.contains_key(k) implies exists|a: int|
                            0 <= a < r@.len() && (#[trigger] r@[a]).0@ == k by {
                            if k != team@ {
                                let a = choose|a: int| 0 <= a < old_r.len() && (#[trigger] old_r[a]).0@ == k;
                                assert(r@[a] == old_r[a]);
                            } else {
                                assert(r@[old_r.len() as int].0@ == k);
                            }
                        }
                        assert forall|a: int, b: int| 0 <= a < b < r@.len() implies (#[trigger] r@[a]).0@
                            != (#[trigger] r@[b]).0@ by {
                            if b < old_r.len() {
                                assert(old_r[a].0@ != old_r[b].0@);
                            }
                        }
                    }
                }
            },
            None => {},
        }
        i = i + 1;
    }
    assert(quotas@.take(i as int) =~= quotas@);
    r
}

/// `ns` is one of the strings in `items`.
pub open spec fn lists_namespace(items: Seq<YamlValue>, ns: Seq<char>) -> bool {
    exists|i: int| 0 <= i < items.len() && str_of(Some(#[trigger] items[i])) == Some(ns)
}

/// The tenant of a namespace: the team of the first quota that lists the
/// namespace or lists none. A quota without `spec` or without `team`
/// ends the search with no tenant.
pub open spec fn tenant_of(ns: Seq<char>, qs: Seq<YamlValue>) -> Option<Seq<char>>
    decreases qs.len(),
{
    if qs.len() == 0 {
        None
    } else {
        match spec_get(qs[0], "spec"@) {
            None => None,
            Some(sp) => match str_of(spec_get(sp, "team"@)) {
                None => None,
                Some(team) => match seq_of(spec_get(sp, "namespaces"@)) {
                    Some(items) => if lists_namespace(items, ns) {
                        Some(team)
                    } else {
                        tenant_of(ns, qs.drop_first())
                    },
                    None => Some(team),
                },
            },
        }
    }
}

/// Whether `items` holds the string `ns`.
fn lists_ns(items: &Vec<YamlValue>, ns: &str) -> (r: bool)
    ensures
        r == lists_namespace(items@, ns@),
{
    let mut i: usize = 0;
    while i < items.len()
        invariant
            i <= items@.len(),
            forall|a: int| 0 <= a < i ==> str_of(Some(#[trigger] items@[a])) != Some(ns@),
        decreases items@.len() - i,
    {
        match items[i].as_str() {
            Some(x) => {
                if str_eq(x, ns) {
                    return true;
                }
            },
            None => {},
        }
        i = i + 1;
    }
    false
}

/// The tenant (team) a namespace belongs to under the quota documents.
pub fn resolve_tenant(namespace: &str, quotas: &Vec<YamlValue>) -> (r: Option<String>)
    ensures
        opt_view(r) == tenant_of(namespace@, quotas@),
{
    let mut i: usize = 0;
    assert(quotas@.skip(0) =~= quotas@);
    while i < quotas.len()
        invariant
            i <= quotas@.len(),
            tenant_of(namespace@, quotas@) == tenant_of(namespace@, quotas@.skip(i as int)),
        decreases quotas@.len() - i,
    {
        let ghost rest = quotas@.skip(i as int);
        assert(rest[0] == quotas@[i as int]);
        assert(rest.drop_first() =~= quotas@.skip(i as int + 1));
        let sp = match quotas[i].get("spec") {
            Some(sp) => sp,
            None => return None,
        };
        let team = match sp.get("team") {
            Some(t) => match t.as_str() {
                Some(t) => t,
                None => return None,
            },
            None => return None,
        };
        match sp.get("namespaces") {
            Some(n) => match n.as_sequence() {
                Some(items) => {
                    if lists_ns(items, namespace) {
                        return Some(String::from_str(team));
                    }
                },
                None => return Some(String::from_str(team)),
            },
            None => return Some(String::from_str(team)),
        }
        i = i + 1;
    }
    None
}

/// An optional integer, or `default`, as a `u32` (truncating).
pub open spec fn int_or(v: Option<YamlValue>, default: i64) -> u32 {
    match int_of(v) {
        Some(i) => i as u32,
        None => default as u32,
    }
}

/// The job's spec asks for a distributed run.
pub open spec fn distributed_enabled(spec: YamlValue) -> bool {
    bool_of(get_opt(spec_get(spec, "distributed"@), "enabled"@)) == Some(true)
}

pub open spec fn distributed_nodes(spec: YamlValue) -> u32 {
    int_or(get_opt(spec_get(spec, "distributed"@), "nodes"@), 1)
}

pub open spec fn distributed_gpus_per_node(spec: YamlValue) -> u32 {
    int_or(get_opt(spec_get(spec, "distributed"@), "gpusPerNode"@), 1)
}

/// The product of nodes and GPUs per node of a distributed spec fits in
/// a `u32`.
pub open spec fn gpu_count_fits(spec: YamlValue) -> bool {
    distributed_enabled(spec) ==> distributed_nodes(spec) * distributed_gpus_per_node(spec) <= u32::MAX
}

/// GPUs a job spec asks for: nodes times GPUs per node for a distributed
/// run (each 1 when absent), else `gpus` (1 when absent).
pub open spec fn spec_gpu_count(spec: YamlValue) -> u32 {
    if distributed_enabled(spec) {
        (distributed_nodes(spec) * distributed_gpus_per_node(spec)) as u32
    } else {
        int_or(spec_get(spec, "gpus"@), 1)
    }
}

fn opt_int(v: Option<&YamlValue>) -> (r: Option<i64>)
    ensures
        r == int_of(match v {
            Some(x) => Some(*x),
            None => None,
        }),
{
    match v {
        Some(x) => x.as_i64(),
        None => None,
    }
}

/// Whether `gpu_count_from_spec` can compute the count of `spec` without
/// overflow.
pub fn gpu_count_in_range(spec: &YamlValue) -> (r: bool)
    ensures
        r == gpu_count_fits(*spec),
{
    let d = spec.get("distributed");
    let enabled = match get_in(d, "enabled") {
        Some(e) => e.as_bool(),
        None => None,
    };
    if enabled != Some(true) {
        return true;
    }
    let nodes = match opt_int(get_in(d, "nodes")) {
        Some(n) => n as u32,
        None => 1,
    };
    let gpn = match opt_int(get_in(d, "gpusPerNode")) {
        Some(n) => n as u32,
        None => 1,
    };
    assert(nodes as int * gpn as int <= 0xffff_ffff * 0xffff_ffff) by (nonlinear_arith)
        requires
            nodes <= 0xffff_ffff,
            gpn <= 0xffff_ffff,
    ;
    (nodes as u64) * (gpn as u64) <= 0xffff_ffff
}

/// GPUs a job spec asks for (see `spec_gpu_count`).
pub fn gpu_count_from_spec(spec: &YamlValue) -> (n: u32)
    requires
        gpu_count_fits(*spec),
    ensures
        n == spec_gpu_count(*spec),
{
    let d = spec.get("distributed");
    let enabled = match get_in(d, "enabled") {
        Some(e) => e.as_bool(),
        None => None,
    };
    if enabled == Some(true) {
        let nodes = match opt_int(get_in(d, "nodes")) {
            Some(n) => n as u32,
            None => 1,
        };
        let gpn = match opt_int(get_in(d, "gpusPerNode")) {
            Some(n) => n as u32,
            None => 1,
        };
        nodes * gpn
    } else {
        match opt_int(spec.get("gpus")) {
            Some(n) => n as u32,
            None => 1,
        }
    }
}

/// Arrival time of a job document: creation timestamps are not read, so
/// every job arrives at time zero.
pub fn parse_arrival_time(meta: &YamlValue) -> (t: u64)
    ensures
        t == 0,
{
    0
}

/// The first profile of model `model`.
pub open spec fn model_lookup(profiles: Seq<ModelProfile>, model: Seq<char>) -> Option<ModelProfile>
    decreases profiles.len(),
{
    if profiles.len() == 0 {
        None
    } else if profiles[0].model@ == model {
        Some(profiles[0])
    } else {
        model_lookup(profiles.drop_first(), model)
    }
}

/// The first entry for GPU type `gpu_type`.
pub open spec fn entry_lookup(entries: Seq<(String, ModelProfileEntry)>, gpu_type: Seq<char>) -> Option<ModelProfileEntry>
    decreases entries.len(),
{
    if entries.len() == 0 {
        None
    } else if entries[0].0@ == gpu_type {
        Some(entries[0].1)
    } else {
        entry_lookup(entries.drop_first(), gpu_type)
    }
}

/// The calibrated entry for a model on a GPU type, or why there is none.
pub open spec fn runtime_lookup(profiles: Seq<ModelProfile>, model: Seq<char>, gpu_type: Seq<char>) -> Result<ModelProfileEntry, Seq<char>> {
    match model_lookup(profiles, model) {
        None => Err("no calibrated profile for model '"@ + model + "' (required in profiles-dir)"@),
        Some(p) => match entry_lookup(p.profiles@, gpu_type) {
            None => Err("no calibrated profile for model '"@ + model + "' gpuType '"@ + gpu_type + "'"@),
            Some(e) => Ok(e),
        },
    }
}

/// Calibrated runtime and GPU memory of `model` on `gpu_type`.
pub fn lookup_runtime(model: &str, gpu_type: &str, profiles: &Vec<ModelProfile>) -> (r: Result<(u64, u64), ConfigError>)
    ensures
        match runtime_lookup(profiles@, model@, gpu_type@) {
            Ok(e) => r == Ok::<(u64, u64), ConfigError>((e.runtime_seconds, e.gpu_memory_gb)),
            Err(msg) => r matches Err(ConfigError::Invalid(m)) && m@ == msg,
        },
{
    let mut i: usize = 0;
    assert(profiles@.skip(0) =~= profiles@);
    while i < profiles.len() && !str_eq(profiles[i].model.as_str(), model)
        invariant
            i <= profiles@.len(),
            model_lookup(profiles@, model@) == model_lookup(profiles@.skip(i as int), model@),
        decreases profiles@.len() - i,
    {
        assert(profiles@.skip(i as int)[0] == profiles@[i as int]);
        assert(profiles@.skip(i as int).drop_first() =~= profiles@.skip(i as int + 1));
        i = i + 1;
    }
    if i == profiles.len() {
        let mut m = String::from_str("no calibrated profile for model '");
        m.append(model);
        m.append("' (required in profiles-dir)");
        proof {
            reveal_strlit("no calibrated profile for model '");
            reveal_strlit("' (required in profiles-dir)");
        }
        return Err(ConfigError::Invalid(m));
    }
    assert(profiles@.skip(i as int)[0] == profiles@[i as int]);
    let entries = &profiles[i].profiles;
    let mut j: usize = 0;
    assert(entries@.skip(0) =~= entries@);
    while j < entries.len()
        invariant
            i < profiles@.len(),
            entries@ == profiles@[i as int].profiles@,
            model_lookup(profiles@, model@) == Some(profiles@[i as int]),
            j <= entries@.len(),
            entry_lookup(entries@, gpu_type@) == entry_lookup(entries@.skip(j as int), gpu_type@),
        decreases entries@.len() - j,
    {
        assert(entries@.skip(j as int)[0] == entries@[j as int]);
        assert(entries@.skip(j as int).drop_first() =~= entries@.skip(j as int + 1));
        if str_eq(entries[j].0.as_str(), gpu_type) {
            let e = entries[j].1;
            return Ok((e.runtime_seconds, e.gpu_memory_gb));
        }
        j = j + 1;
    }
    let mut m = String::from_str("no calibrated profile for model '");
    m.append(model);
    m.append("' gpuType '");
    m.append(gpu_type);
    m.append("'");
    proof {
        reveal_strlit("no calibrated profile for model '");
        reveal_strlit("' gpuType '");
        reveal_strlit("'");
    }
    Err(ConfigError::Invalid(m))
}

/// A string value, or `default`.
pub open spec fn str_or(v: Option<YamlValue>, default: Seq<char>) -> Seq<char> {
    match str_of(v) {
        Some(s) => s,
        None => default,
    }
}

pub open spec fn doc_metadata(doc: YamlValue) -> YamlValue {
    spec_get(doc, "metadata"@)->0
}

pub open spec fn doc_spec(doc: YamlValue) -> YamlValue {
    spec_get(doc, "spec"@)->0
}

pub open spec fn job_name_of(meta: YamlValue) -> Seq<char> {
    str_or(spec_get(meta, "name"@), "unknown"@)
}

pub open spec fn job_namespace_of(meta: YamlValue) -> Seq<char> {
    str_or(spec_get(meta, "namespace"@), "default"@)
}

pub open spec fn job_gpu_type_of(spec: YamlValue) -> Seq<char> {
    str_or(spec_get(spec, "gpuType"@), "any"@)
}

/// The model a job runs: `model`, or the job's name.
pub open spec fn job_model_of(meta: YamlValue, spec: YamlValue) -> Seq<char> {
    str_or(spec_get(spec, "model"@), job_name_of(meta))
}

/// A string annotation of the job's metadata.
pub open spec fn annotation_of(meta: YamlValue, key: Seq<char>) -> Option<Seq<char>> {
    str_of(get_opt(spec_get(meta, "annotations"@), key))
}

pub open spec fn mig_profile_of(spec: YamlValue) -> Option<Seq<char>> {
    str_of(get_opt(spec_get(spec, "mig"@), "profile"@))
}

pub open spec fn mig_count_of(spec: YamlValue) -> Option<u32> {
    match int_of(get_opt(spec_get(spec, "mig"@), "count"@)) {
        Some(c) => Some(c as u32),
        None => None,
    }
}

/// Network bandwidth in Gbit/s: 400 for `rdma`, 200 for `sriov`.
pub open spec fn network_bw_of(spec: YamlValue) -> Option<u64> {
    match str_of(spec_get(spec, "network"@)) {
        Some(n) => if n == "rdma"@ {
            Some(400)
        } else if n == "sriov"@ {
            Some(200)
        } else {
            None
        },
        None => None,
    }
}

/// GPUs (or MIG slices) a job asks for: its MIG count (1 when absent) for
/// a MIG job, else the count of its spec.
pub open spec fn job_gpu_count_of(spec: YamlValue) -> u32 {
    if mig_profile_of(spec) is Some {
        match mig_count_of(spec) {
            Some(c) => c,
            None => 1,
        }
    } else {
        spec_gpu_count(spec)
    }
}

/// Why a `FabricAIJob` document cannot be read, if it cannot.
pub open spec fn ai_job_error(doc: YamlValue, profiles: Seq<ModelProfile>) -> Option<Seq<char>> {
    if forge_doc_error(doc) is Some {
        forge_doc_error(doc)
    } else if kind_spec(doc) != Some("FabricAIJob"@) {
        Some("expected FabricAIJob"@)
    } else if spec_get(doc, "metadata"@) is None {
        Some("missing metadata"@)
    } else if spec_get(doc, "spec"@) is None {
        Some("missing spec"@)
    } else {
        match runtime_lookup(
            profiles,
            job_model_of(doc_metadata(doc), doc_spec(doc)),
            job_gpu_type_of(doc_spec(doc)),
        ) {
            Ok(_) => None,
            Err(m) => Some(m),
        }
    }
}

/// The GPU count of a readable job document can be computed without
/// overflow.
pub open spec fn ai_job_fits(doc: YamlValue) -> bool {
    mig_profile_of(doc_spec(doc)) is None ==> gpu_count_fits(doc_spec(doc))
}

/// `job` is the job the `FabricAIJob` document `doc` describes.
pub open spec fn ai_job_built(job: Job, doc: YamlValue, quotas: Seq<YamlValue>, profiles: Seq<ModelProfile>) -> bool {
    let meta = doc_metadata(doc);
    let spec = doc_spec(doc);
    let name = job_name_of(meta);
    let ns = job_namespace_of(meta);
    let gpu_type = job_gpu_type_of(spec);
    let entry = runtime_lookup(profiles, job_model_of(meta, spec), gpu_type)->Ok_0;
    &&& job.id@ == ns + "/"@ + name
    &&& job.name@ == name
    &&& job.arrival_time == 0
    &&& job.runtime == entry.runtime_seconds
    &&& job.gpu_memory_gb == entry.gpu_memory_gb
    &&& job.gpu_count == job_gpu_count_of(spec)
    &&& job.priority == int_or(spec_get(spec, "priority"@), 0)
    &&& opt_view(job.tenant) == tenant_of(ns, quotas)
    &&& job.network_bw_gbps == network_bw_of(spec)
    &&& opt_view(job.gpu_type) == Some(gpu_type)
    &&& opt_view(job.namespace) == Some(ns)
    &&& job.gang_enabled == (annotation_of(meta, "forge.ai/gang-schedule"@) == Some("true"@))
    &&& job.gang_size_nodes == match annotation_of(meta, "forge.ai/gang-size"@) {
        Some(t) => parsed_u32(t),
        None => None,
    }
    &&& job.gang_timeout_secs is None
    &&& opt_view(job.mig_profile) == mig_profile_of(spec)
    &&& job.mig_count == mig_count_of(spec)
    &&& job.state == JobState::Pending
    &&& job.start_time is None
    &&& job.finish_time is None
    &&& job.assigned_gpus@.len() == 0
    &&& job.run_generation == 0
}

/// A string value, or `default`.
fn str_or_default<'a>(v: Option<&'a YamlValue>, default: &'a str) -> (r: &'a str)
    ensures
        r@ == str_or(match v {
            Some(x) => Some(*x),
            None => None,
        }, default@),
{
    match v {
        Some(x) => match x.as_str() {
            Some(s) => s,
            None => default,
        },
        None => default,
    }
}

fn opt_str<'a>(v: Option<&'a YamlValue>) -> (r: Option<&'a str>)
    ensures
        match r {
            Some(s) => str_of(match v {
                Some(x) => Some(*x),
                None => None,
            }) == Some(s@),
            None => str_of(match v {
                Some(x) => Some(*x),
                None => None,
            }) is None,
        },
{
    match v {
        Some(x) => x.as_str(),
        None => None,
    }
}

fn message(text: &str) -> (e: ConfigError)
    ensures
        e matches ConfigError::Invalid(m) && m@ == text@,
{
    ConfigError::Invalid(String::from_str(text))
}

/// The job a `FabricAIJob` document describes: id `<namespace>/<name>`,
/// the calibrated runtime and memory of its model on its GPU type, its
/// tenant from the quota documents, its gang and MIG settings. The GPU
/// type registry is not consulted.
pub fn parse_fabric_ai_job(
    doc: &YamlValue,
    quotas: &Vec<YamlValue>,
    model_profiles: &Vec<ModelProfile>,
    gpu_registry: &GpuTypeRegistry,
) -> (r: Result<Job, ConfigError>)
    requires
        ai_job_error(*doc, model_profiles@) is None ==> ai_job_fits(*doc),
    ensures
        match ai_job_error(*doc, model_profiles@) {
            Some(e) => r matches Err(ConfigError::Invalid(m)) && m@ == e,
            None => r matches Ok(job) && ai_job_built(job, *doc, quotas@, model_profiles@),
        },
{
    proof {
        reveal_strlit("FabricAIJob");
        reveal_strlit("expected FabricAIJob");
        reveal_strlit("missing metadata");
        reveal_strlit("missing spec");
    }
    validate_forge_doc(doc)?;
    if !has_kind(doc, "FabricAIJob") {
        return Err(message("expected FabricAIJob"));
    }
    let meta = match doc.get("metadata") {
        Some(m) => m,
        None => return Err(message("missing metadata")),
    };
    let spec = match doc.get("spec") {
        Some(s) => s,
        None => return Err(message("missing spec")),
    };
    let name = str_or_default(meta.get("name"), "unknown");
    let namespace = str_or_default(meta.get("namespace"), "default");
    let annotations = meta.get("annotations");
    let gang_enabled = match opt_str(get_in(annotations, "forge.ai/gang-schedule")) {
        Some(s) => {
            proof {
                reveal_strlit("true");
            }
            str_eq(s, "true")
        },
        None => false,
    };
    let gang_size_nodes = match opt_str(get_in(annotations, "forge.ai/gang-size")) {
        Some(s) => parse_u32(s),
        None => None,
    };
    let gpu_type = str_or_default(spec.get("gpuType"), "any");
    let model = str_or_default(spec.get("model"), name);
    let (runtime, gpu_memory_gb) = lookup_runtime(model, gpu_type, model_profiles)?;
    let mig = spec.get("mig");
    let mig_profile = match opt_str(get_in(mig, "profile")) {
        Some(p) => Some(String::from_str(p)),
        None => None,
    };
    let mig_count = match opt_int(get_in(mig, "count")) {
        Some(c) => Some(c as u32),
        None => None,
    };
    proof {
        reveal_strlit("rdma");
        reveal_strlit("sriov");
    }
    let network_bw: Option<u64> = match opt_str(spec.get("network")) {
        Some(n) => if str_eq(n, "rdma") {
            Some(400)
        } else if str_eq(n, "sriov") {
            Some(200)
        } else {
            None
        },
        None => None,
    };
    let priority = match opt_int(spec.get("priority")) {
        Some(p) => p as u32,
        None => 0,
    };
    let gpu_count = if mig_profile.is_some() {
        match mig_count {
            Some(c) => c,
            None => 1,
        }
    } else {
        gpu_count_from_spec(spec)
    };
    let mut id = String::from_str(namespace);
    id.append("/");
    id.append(name);
    proof {
        reveal_strlit("/");
    }
    let mut job = Job::new("", name, parse_arrival_time(meta), runtime, gpu_count);
    job.id = id;
    job.gpu_memory_gb = gpu_memory_gb;
    job.priority = priority;
    job.tenant = resolve_tenant(namespace, quotas);
    job.network_bw_gbps = network_bw;
    job.gpu_type = Some(String::from_str(gpu_type));
    job.namespace = Some(String::from_str(namespace));
    job.gang_enabled = gang_enabled;
    job.gang_size_nodes = gang_size_nodes;
    job.mig_profile = mig_profile;
    job.mig_count = mig_count;
    Ok(job)
}

pub open spec fn is_gpu_node_doc(doc: YamlValue) -> bool {
    kind_spec(doc) == Some("FabricGpuNode"@)
}

pub open spec fn node_gpu_type_of(spec: YamlValue) -> Seq<char> {
    str_or(spec_get(spec, "gpuType"@), "any"@)
}

/// GPU memory of a node's GPUs: `memoryGB` as given (negative values too),
/// else the memory of the hardware profile its GPU type maps to, else 80.
pub open spec fn node_memory_of(spec: YamlValue, registry: Seq<(String, String)>, hw: Seq<HardwareProfile>) -> i64 {
    match int_of(spec_get(spec, "memoryGB"@)) {
        Some(m) => m,
        None => match registry_lookup(registry, node_gpu_type_of(spec)) {
            Some(p) => match find_profile(hw, p) {
                Some(h) => h.memory_gb,
                None => 80,
            },
            None => 80,
        },
    }
}

/// Why a `FabricGpuNode` document cannot be read, if it cannot.
pub open spec fn gpu_node_error(doc: YamlValue, registry: Seq<(String, String)>) -> Option<Seq<char>> {
    if forge_doc_error(doc) is Some {
        forge_doc_error(doc)
    } else if spec_get(doc, "spec"@) is None {
        Some("missing spec"@)
    } else if str_of(spec_get(doc_spec(doc), "nodeName"@)) is None {
        Some("FabricGpuNode missing nodeName"@)
    } else if registry_lookup(registry, node_gpu_type_of(doc_spec(doc))) is None {
        Some(unknown_gpu_type_message(node_gpu_type_of(doc_spec(doc))))
    } else {
        None
    }
}

/// Id of GPU `i` of node `node`: `<node>-gpu-<i>`.
pub open spec fn node_gpu_id(node: Seq<char>, i: nat) -> Seq<char> {
    node + "-gpu-"@ + decimal(i)
}

/// `nv` is the node a readable `FabricGpuNode` document describes: one
/// free GPU per `gpuCount` (1 when absent), NVLink-paired, of the mapped
/// hardware profile, MIG-capable when that profile is.
pub open spec fn gpu_node_built(nv: NodeView, doc: YamlValue, registry: Seq<(String, String)>, hw: Seq<HardwareProfile>) -> bool {
    let spec = doc_spec(doc);
    let name = str_of(spec_get(spec, "nodeName"@))->0;
    let profile = registry_lookup(registry, node_gpu_type_of(spec))->0;
    &&& nv.id == name
    &&& nv.gpus.len() == int_or(spec_get(spec, "gpuCount"@), 1)
    &&& forall|i: int|
        0 <= i < nv.gpus.len() ==> {
            let g = #[trigger] nv.gpus[i];
            &&& g.id == node_gpu_id(name, i as nat)
            &&& g.node_id == name
            &&& g.profile == profile
            &&& g.memory_gb == node_memory_of(spec, registry, hw)
            &&& g.nvlink_group == Some((i / 2) as u32)
            &&& g.running_job_id is None
            &&& g.mig_capable == (find_profile(hw, profile) matches Some(h) && h.mig)
            &&& g.active_mig_profile is None
            &&& g.slices.len() == 0
        }
}

/// The `FabricGpuNode` documents of a stream, in order.
pub open spec fn gpu_node_docs(docs: Seq<YamlValue>) -> Seq<YamlValue>
    decreases docs.len(),
{
    if docs.len() == 0 {
        Seq::empty()
    } else if is_gpu_node_doc(docs.last()) {
        gpu_node_docs(docs.drop_last()).push(docs.last())
    } else {
        gpu_node_docs(docs.drop_last())
    }
}

/// The error of the first unreadable `FabricGpuNode` document, if any.
pub open spec fn gpu_nodes_error(docs: Seq<YamlValue>, registry: Seq<(String, String)>) -> Option<Seq<char>>
    decreases docs.len(),
{
    if docs.len() == 0 {
        None
    } else if is_gpu_node_doc(docs[0]) && gpu_node_error(docs[0], registry) is Some {
        gpu_node_error(docs[0], registry)
    } else {
        gpu_nodes_error(docs.drop_first(), registry)
    }
}

proof fn lemma_gpu_nodes_error_step(docs: Seq<YamlValue>, registry: Seq<(String, String)>, k: int)
    requires
        0 <= k < docs.len(),
        gpu_nodes_error(docs.take(k), registry) is None,
        !(is_gpu_node_doc(docs[k]) && gpu_node_error(docs[k], registry) is Some),
    ensures
        gpu_nodes_error(docs.take(k + 1), registry) is None,
    decreases k,
{
    assert(docs.take(k + 1)[0] == docs[0]);
    if k > 0 {
        assert(docs.take(k)[0] == docs[0]);
        assert(docs.take(k).drop_first() =~= docs.drop_first().take(k - 1));
        assert(docs.take(k + 1).drop_first() =~= docs.drop_first().take(k));
        lemma_gpu_nodes_error_step(docs.drop_first(), registry, k - 1);
    } else {
        assert(docs.take(k + 1).drop_first() =~= Seq::<YamlValue>::empty());
        assert(gpu_nodes_error(Seq::<YamlValue>::empty(), registry) is None);
    }
}

proof fn lemma_gpu_nodes_error_found(docs: Seq<YamlValue>, registry: Seq<(String, String)>, k: int)
    requires
        0 <= k < docs.len(),
        gpu_nodes_error(docs.take(k), registry) is None,
        is_gpu_node_doc(docs[k]),
        gpu_node_error(docs[k], registry) is Some,
    ensures
        gpu_nodes_error(docs, registry) == gpu_node_error(docs[k], registry),
    decreases k,
{
    if k > 0 {
        assert(docs.take(k)[0] == docs[0]);
        assert(docs.take(k).drop_first() =~= docs.drop_first().take(k - 1));
        lemma_gpu_nodes_error_found(docs.drop_first(), registry, k - 1);
    }
}

fn lookup_hw<'a>(profiles: &'a Vec<HardwareProfile>, name: &str) -> (r: Option<&'a HardwareProfile>)
    ensures
        match r {
            Some(h) => find_profile(profiles@, name@) == Some(*h),
            None => find_profile(profiles@, name@) is None,
        },
{
    let mut i: usize = 0;
    assert(profiles@.skip(0) =~= profiles@);
    while i < profiles.len()
        invariant
            i <= profiles@.len(),
            find_profile(profiles@, name@) == find_profile(profiles@.skip(i as int), name@),
        decreases profiles@.len() - i,
    {
        assert(profiles@.skip(i as int)[0] == profiles@[i as int]);
        assert(profiles@.skip(i as int).drop_first() =~= profiles@.skip(i as int + 1));
        if str_eq(profiles[i].name.as_str(), name) {
            return Some(&profiles[i]);
        }
        i = i + 1;
    }
    None
}

/// The node a Forge `FabricGpuNode` document describes.
fn build_gpu_node(doc: &YamlValue, registry: &GpuTypeRegistry, hw_profiles: &Vec<HardwareProfile>) -> (r: Result<Node, ConfigError>)
    requires
        is_gpu_node_doc(*doc),
    ensures
        match gpu_node_error(*doc, registry.mappings@) {
            Some(e) => r matches Err(ConfigError::Invalid(m)) && m@ == e,
            None => r matches Ok(node) && gpu_node_built(node@, *doc, registry.mappings@, hw_profiles@),
        },
{
    proof {
        reveal_strlit("missing spec");
        reveal_strlit("FabricGpuNode missing nodeName");
    }
    validate_forge_doc(doc)?;
    let spec = match doc.get("spec") {
        Some(s) => s,
        None => return Err(message("missing spec")),
    };
    let node_name = match opt_str(spec.get("nodeName")) {
        Some(n) => n,
        None => return Err(message("FabricGpuNode missing nodeName")),
    };
    let gpu_type = str_or_default(spec.get("gpuType"), "any");
    let gpu_count: u32 = match opt_int(spec.get("gpuCount")) {
        Some(c) => c as u32,
        None => 1,
    };
    let memory_gb: i64 = match opt_int(spec.get("memoryGB")) {
        Some(m) => m,
        None => match lookup_gpu_type(gpu_type, registry) {
            Some(p) => match lookup_hw(hw_profiles, p.as_str()) {
                Some(h) => h.memory_gb,
                None => 80,
            },
            None => 80,
        },
    };
    let profile_name = map_gpu_type(gpu_type, registry)?;
    let mig_capable = match lookup_hw(hw_profiles, profile_name.as_str()) {
        Some(h) => h.mig,
        None => false,
    };
    let mut gpus: Vec<Gpu> = Vec::new();
    let mut i: u32 = 0;
    proof {
        reveal_strlit("-gpu-");
    }
    while i < gpu_count
        invariant
            i <= gpu_count,
            gpus@.len() == i,
            forall|k: int|
                0 <= k < i ==> {
                    let g = (#[trigger] gpus@[k])@;
                    &&& g.id == node_gpu_id(node_name@, k as nat)
                    &&& g.node_id == node_name@
                    &&& g.profile == profile_name@
                    &&& g.memory_gb == memory_gb
                    &&& g.nvlink_group == Some((k / 2) as u32)
                    &&& g.running_job_id is None
                    &&& g.mig_capable == mig_capable
                    &&& g.active_mig_profile is None
                    &&& g.slices.len() == 0
                },
        decreases gpu_count - i,
    {
        let mut id = String::from_str(node_name);
        id.append("-gpu-");
        push_decimal(&mut id, i);
        let mut gpu = Gpu::new(id.as_str(), node_name, profile_name.as_str(), memory_gb);
        gpu.nvlink_group = Some(i / 2);
        gpu.mig_capable = mig_capable;
        gpus.push(gpu);
        i = i + 1;
    }
    let node = Node { id: String::from_str(node_name), gpus };
    assert forall|k: int| 0 <= k < node@.gpus.len() implies node@.gpus[k] == node.gpus@[k]@ by {}
    Ok(node)
}

/// `c` is a cluster at time zero with no jobs or quotas whose nodes are
/// built from the node documents `nd`.
pub open spec fn cluster_of_node_docs(c: Cluster, nd: Seq<YamlValue>, registry: Seq<(String, String)>, hw: Seq<HardwareProfile>) -> bool {
    &&& c.resources().len() == nd.len()
    &&& forall|n: int| 0 <= n < nd.len() ==> gpu_node_built(#[trigger] c.resources()[n], nd[n], registry, hw)
    &&& c.waiting_queue@.len() == 0
    &&& c.running_jobs@.len() == 0
    &&& c.finished_jobs@.len() == 0
    &&& c.clock == 0
    &&& c.mig_reconfigs == 0
    &&& c.tenant_quotas@.len() == 0
}

/// The cluster the `FabricGpuNode` documents among `docs` describe, one
/// node per document in order. An unreadable node document, or none at
/// all, is an error.
pub fn parse_fabric_gpu_nodes(
    docs: &Vec<YamlValue>,
    gpu_registry: &GpuTypeRegistry,
    hw_profiles: &Vec<HardwareProfile>,
) -> (r: Result<Cluster, ConfigError>)
    ensures
        match gpu_nodes_error(docs@, gpu_registry.mappings@) {
            Some(e) => r matches Err(ConfigError::Invalid(m)) && m@ == e,
            None => if gpu_node_docs(docs@).len() == 0 {
                r matches Err(ConfigError::Invalid(m)) && m@ == "no FabricGpuNode documents found in cluster/"@
            } else {
                r matches Ok(c) && cluster_of_node_docs(c, gpu_node_docs(docs@), gpu_registry.mappings@, hw_profiles@)
            },
        },
{
    proof {
        reveal_strlit("FabricGpuNode");
        reveal_strlit("no FabricGpuNode documents found in cluster/");
    }
    let mut nodes: Vec<Node> = Vec::new();
    let mut k: usize = 0;
    while k < docs.len()
        invariant
            k <= docs@.len(),
            gpu_nodes_error(docs@.take(k as int), gpu_registry.mappings@) is None,
            nodes@.len() == gpu_node_docs(docs@.take(k as int)).len(),
            forall|n: int| 0 <= n < nodes@.len() ==> gpu_node_built(
                (#[trigger] nodes@[n])@,
                gpu_node_docs(docs@.take(k as int))[n],
                gpu_registry.mappings@,
                hw_profiles@,
            ),
        decreases docs@.len() - k,
    {
        let doc = &docs[k];
        assert(docs@.take(k as int + 1).drop_last() =~= docs@.take(k as int));
        if has_kind(doc, "FabricGpuNode") {
            match build_gpu_node(doc, gpu_registry, hw_profiles) {
                Ok(node) => {
                    nodes.push(node);
                },
                Err(e) => {
                    proof {
                        lemma_gpu_nodes_error_found(docs@, gpu_registry.mappings@, k as int);
                    }
                    return Err(e);
                },
            }
        }
        proof {
            lemma_gpu_nodes_error_step(docs@, gpu_registry.mappings@, k as int);
        }
        k = k + 1;
    }
    assert(docs@.take(k as int) =~= docs@);
    if nodes.len() == 0 {
        return Err(message("no FabricGpuNode documents found in cluster/"));
    }
    let c = Cluster::new(nodes);
    assert forall|n: int| 0 <= n < c.resources().len() implies c.resources()[n] == c.nodes@[n]@ by {}
    Ok(c)
}

pub open spec fn is_ai_job_doc(doc: YamlValue) -> bool {
    kind_spec(doc) == Some("FabricAIJob"@)
}

/// The `FabricAIJob` documents of a stream, in order.
pub open spec fn ai_job_docs(docs: Seq<YamlValue>) -> Seq<YamlValue>
    decreases docs.len(),
{
    if docs.len() == 0 {
        Seq::empty()
    } else if is_ai_job_doc(docs.last()) {
        ai_job_docs(docs.drop_last()).push(docs.last())
    } else {
        ai_job_docs(docs.drop_last())
    }
}

/// The error of the first unreadable `FabricAIJob` document, if any.
pub open spec fn ai_jobs_error(docs: Seq<YamlValue>, profiles: Seq<ModelProfile>) -> Option<Seq<char>>
    decreases docs.len(),
{
    if docs.len() == 0 {
        None
    } else if is_ai_job_doc(docs[0]) && ai_job_error(docs[0], profiles) is Some {
        ai_job_error(docs[0], profiles)
    } else {
        ai_jobs_error(docs.drop_first(), profiles)
    }
}

/// Every job document that reading reaches has a GPU count that fits.
pub open spec fn ai_jobs_fit(docs: Seq<YamlValue>, profiles: Seq<ModelProfile>) -> bool {
    forall|i: int|
        0 <= i < docs.len() && is_ai_job_doc(#[trigger] docs[i]) && ai_jobs_error(docs.take(i), profiles)
            is None && ai_job_error(docs[i], profiles) is None ==> ai_job_fits(docs[i])
}

proof fn lemma_ai_jobs_error_step(docs: Seq<YamlValue>, profiles: Seq<ModelProfile>, k: int)
    requires
        0 <= k < docs.len(),
        ai_jobs_error(docs.take(k), profiles) is None,
        !(is_ai_job_doc(docs[k]) && ai_job_error(docs[k], profiles) is Some),
    ensures
        ai_jobs_error(docs.take(k + 1), profiles) is None,
    decreases k,
{
    assert(docs.take(k + 1)[0] == docs[0]);
    if k > 0 {
        assert(docs.take(k)[0] == docs[0]);
        assert(docs.take(k).drop_first() =~= docs.drop_first().take(k - 1));
        assert(docs.take(k + 1).drop_first() =~= docs.drop_first().take(k));
        lemma_ai_jobs_error_step(docs.drop_first(), profiles, k - 1);
    } else {
        assert(docs.take(k + 1).drop_first() =~= Seq::<YamlValue>::empty());
        assert(ai_jobs_error(Seq::<YamlValue>::empty(), profiles) is None);
    }
}

proof fn lemma_ai_jobs_error_found(docs: Seq<YamlValue>, profiles: Seq<ModelProfile>, k: int)
    requires
        0 <= k < docs.len(),
        ai_jobs_error(docs.take(k), profiles) is None,
        is_ai_job_doc(docs[k]),
        ai_job_error(docs[k], profiles) is Some,
    ensures
        ai_jobs_error(docs, profiles) == ai_job_error(docs[k], profiles),
    decreases k,
{
    if k > 0 {
        assert(docs.take(k)[0] == docs[0]);
        assert(docs.take(k).drop_first() =~= docs.drop_first().take(k - 1));
        lemma_ai_jobs_error_found(docs.drop_first(), profiles, k - 1);
    }
}

/// The jobs the `FabricAIJob` documents among `docs` describe, in order.
/// An unreadable job document, or none at all, is an error.
pub fn forge_jobs(
    docs: &Vec<YamlValue>,
    quotas: &Vec<YamlValue>,
    model_profiles: &Vec<ModelProfile>,
    gpu_registry: &GpuTypeRegistry,
) -> (r: Result<Vec<Job>, ConfigError>)
    requires
        ai_jobs_fit(docs@, model_profiles@),
    ensures
        match ai_jobs_error(docs@, model_profiles@) {
            Some(e) => r matches Err(ConfigError::Invalid(m)) && m@ == e,
            None => if ai_job_docs(docs@).len() == 0 {
                r matches Err(ConfigError::Invalid(m)) && m@ == "no FabricAIJob documents in jobs/"@
            } else {
                r matches Ok(jobs) && jobs@.len() == ai_job_docs(docs@).len() && forall|n: int|
                    0 <= n < jobs@.len() ==> ai_job_built(
                        #[trigger] jobs@[n],
                        ai_job_docs(docs@)[n],
                        quotas@,
                        model_profiles@,
                    )
            },
        },
{
    proof {
        reveal_strlit("FabricAIJob");
        reveal_strlit("no FabricAIJob documents in jobs/");
    }
    let mut jobs: Vec<Job> = Vec::new();
    let mut k: usize = 0;
    while k < docs.len()
        invariant
            k <= docs@.len(),
            ai_jobs_fit(docs@, model_profiles@),
            ai_jobs_error(docs@.take(k as int), model_profiles@) is None,
            jobs@.len() == ai_job_docs(docs@.take(k as int)).len(),
            forall|n: int| 0 <= n < jobs@.len() ==> ai_job_built(
                #[trigger] jobs@[n],
                ai_job_docs(docs@.take(k as int))[n],
                quotas@,
                model_profiles@,
            ),
        decreases docs@.len() - k,
    {
        let doc = &docs[k];
        assert(docs@.take(k as int + 1).drop_last() =~= docs@.take(k as int));
        if has_kind(doc, "FabricAIJob") {
            assert(is_ai_job_doc(docs@[k as int]));
            match parse_fabric_ai_job(doc, quotas, model_profiles, gpu_registry) {
                Ok(job) => {
                    jobs.push(job);
                },
                Err(e) => {
                    proof {
                        lemma_ai_jobs_error_found(docs@, model_profiles@, k as int);
                    }
                    return Err(e);
                },
            }
        }
        proof {
            lemma_ai_jobs_error_step(docs@, model_profiles@, k as int);
        }
        k = k + 1;
    }
    assert(docs@.take(k as int) =~= docs@);
    if jobs.len() == 0 {
        return Err(message("no FabricAIJob documents in jobs/"));
    }
    Ok(jobs)
}

/// The bundle that Forge documents describe: the jobs of the job
/// documents, the cluster of the node documents, and the tenant quotas of
/// the (already checked) quota documents. Job errors come before node
/// errors.
pub fn forge_bundle_from_documents(
    quotas: &Vec<YamlValue>,
    job_docs: &Vec<YamlValue>,
    cluster_docs: &Vec<YamlValue>,
    model_profiles: &Vec<ModelProfile>,
    gpu_registry: &GpuTypeRegistry,
    hw_profiles: &Vec<HardwareProfile>,
) -> (r: Result<ForgeBundle, ConfigError>)
    requires
        ai_jobs_fit(job_docs@, model_profiles@),
    ensures
        ai_jobs_error(job_docs@, model_profiles@) is Some ==> (r matches Err(ConfigError::Invalid(m))
            && Some(m@) == ai_jobs_error(job_docs@, model_profiles@)),
        ai_jobs_error(job_docs@, model_profiles@) is None && ai_job_docs(job_docs@).len() == 0 ==> (
        r matches Err(ConfigError::Invalid(m)) && m@ == "no FabricAIJob documents in jobs/"@),
        ai_jobs_error(job_docs@, model_profiles@) is None && ai_job_docs(job_docs@).len() > 0 ==> {
            match gpu_nodes_error(cluster_docs@, gpu_registry.mappings@) {
                Some(e) => r matches Err(ConfigError::Invalid(m)) && m@ == e,
                None => if gpu_node_docs(cluster_docs@).len() == 0 {
                    r matches Err(ConfigError::Invalid(m)) && m@ == "no FabricGpuNode documents found in cluster/"@
                } else {
                    r matches Ok(b) && bundle_built(b, *quotas, *job_docs, *cluster_docs, model_profiles@, *gpu_registry, hw_profiles@)
                },
            }
        },
{
    let jobs = forge_jobs(job_docs, quotas, model_profiles, gpu_registry)?;
    let mut cluster = parse_fabric_gpu_nodes(cluster_docs, gpu_registry, hw_profiles)?;
    cluster.tenant_quotas = parse_tenant_quotas(quotas);
    Ok(ForgeBundle { jobs, cluster })
}

/// `b` is the bundle the documents describe.
pub open spec fn bundle_built(
    b: ForgeBundle,
    quotas: Vec<YamlValue>,
    job_docs: Vec<YamlValue>,
    cluster_docs: Vec<YamlValue>,
    profiles: Seq<ModelProfile>,
    registry: GpuTypeRegistry,
    hw: Seq<HardwareProfile>,
) -> bool {
    let jd = ai_job_docs(job_docs@);
    &&& b.jobs@.len() == jd.len()
    &&& forall|n: int| 0 <= n < jd.len() ==> ai_job_built(#[trigger] b.jobs@[n], jd[n], quotas@, profiles)
    &&& b.cluster.resources().len() == gpu_node_docs(cluster_docs@).len()
    &&& forall|n: int|
        0 <= n < b.cluster.resources().len() ==> gpu_node_built(
            #[trigger] b.cluster.resources()[n],
            gpu_node_docs(cluster_docs@)[n],
            registry.mappings@,
            hw,
        )
    &&& b.cluster.waiting_queue@.len() == 0
    &&& b.cluster.running_jobs@.len() == 0
    &&& b.cluster.finished_jobs@.len() == 0
    &&& b.cluster.clock == 0
    &&& b.cluster.mig_reconfigs == 0
    &&& pairs_are_map(b.cluster.tenant_quotas@, quota_map(quotas@))
}

/// Whether a job document can be read (see `ai_job_error`).
fn ai_job_readable(doc: &YamlValue, model_profiles: &Vec<ModelProfile>) -> (r: bool)
    ensures
        r == (ai_job_error(*doc, model_profiles@) is None),
{
    proof {
        reveal_strlit("FabricAIJob");
    }
    if validate_forge_doc(doc).is_err() || !has_kind(doc, "FabricAIJob") {
        return false;
    }
    let meta = match doc.get("metadata") {
        Some(m) => m,
        None => return false,
    };
    let spec = match doc.get("spec") {
        Some(s) => s,
        None => return false,
    };
    let name = str_or_default(meta.get("name"), "unknown");
    let gpu_type = str_or_default(spec.get("gpuType"), "any");
    let model = str_or_default(spec.get("model"), name);
    lookup_runtime(model, gpu_type, model_profiles).is_ok()
}

/// Whether `forge_jobs` can read `docs` without an overflowing GPU count
/// (see `ai_jobs_fit`).
pub fn forge_jobs_in_range(docs: &Vec<YamlValue>, model_profiles: &Vec<ModelProfile>) -> (r: bool)
    ensures
        r == ai_jobs_fit(docs@, model_profiles@),
{
    proof {
        reveal_strlit("FabricAIJob");
    }
    let mut k: usize = 0;
    while k < docs.len()
        invariant
            k <= docs@.len(),
            ai_jobs_error(docs@.take(k as int), model_profiles@) is None,
            forall|i: int|
                0 <= i < k && is_ai_job_doc(#[trigger] docs@[i]) && ai_jobs_error(docs@.take(i), model_profiles@)
                    is None && ai_job_error(docs@[i], model_profiles@) is None ==> ai_job_fits(docs@[i]),
        decreases docs@.len() - k,
    {
        let doc = &docs[k];
        if has_kind(doc, "FabricAIJob") {
            if !ai_job_readable(doc, model_profiles) {
                proof {
                    lemma_ai_jobs_error_found(docs@, model_profiles@, k as int);
                    assert forall|i: int|
                        0 <= i < docs@.len() && is_ai_job_doc(#[trigger] docs@[i]) && ai_jobs_error(
                            docs@.take(i),
                            model_profiles@,
                        ) is None && ai_job_error(docs@[i], model_profiles@) is None implies ai_job_fits(
                        docs@[i],
                    ) by {
                        if i > k {
                            lemma_ai_jobs_error_prefix(docs@, model_profiles@, k as int, i);
                        }
                    }
                }
                return true;
            }
            let spec = match doc.get("spec") {
                Some(s) => s,
                None => return true,
            };
            let mig_profile = opt_str(get_in(spec.get("mig"), "profile"));
            if mig_profile.is_none() && !gpu_count_in_range(spec) {
                return false;
            }
        }
        proof {
            lemma_ai_jobs_error_step(docs@, model_profiles@, k as int);
        }
        k = k + 1;
    }
    assert(docs@.take(k as int) =~= docs@);
    true
}

/// Once a prefix of the documents holds an unreadable job document, every
/// longer prefix does.
proof fn lemma_ai_jobs_error_prefix(docs: Seq<YamlValue>, profiles: Seq<ModelProfile>, k: int, i: int)
    requires
        0 <= k < i <= docs.len(),
        ai_jobs_error(docs.take(k), profiles) is None,
        is_ai_job_doc(docs[k]),
        ai_job_error(docs[k], profiles) is Some,
    ensures
        ai_jobs_error(docs.take(i), profiles) is Some,
{
    assert(docs.take(i).take(k) =~= docs.take(k));
    assert(docs.take(i)[k] == docs[k]);
    lemma_ai_jobs_error_found(docs.take(i), profiles, k);
}

/// Runs a Forge bundle with the named scheduler (`fifo`, `priority`,
/// `preemptive`, `forge` or `bestfit`). A bundle with MIG jobs and no MIG
/// profile registry is an error, and so is any other scheduler name.
pub fn run_forge_bundle_with(
    bundle: ForgeBundle,
    mig_registry: Option<MigProfileRegistry>,
    scheduler: &str,
) -> (r: Result<(Cluster, SimulationMetrics), ConfigError>)
    requires
        bundle.cluster.wf(),
    ensures
        has_mig_job(bundle.jobs@) && mig_registry is None ==> (r matches Err(ConfigError::Invalid(m)) && m@
            == "forge bundle contains MIG jobs but no MIG profile registry is configured"@),
        !(has_mig_job(bundle.jobs@) && mig_registry is None) ==> {
            &&& known_scheduler(scheduler@) <==> r is Ok
            &&& !known_scheduler(scheduler@) ==> (r matches Err(ConfigError::Invalid(m)) && m@
                == "unsupported scheduler type '"@ + scheduler@ + "'"@)
            &&& r matches Ok(out) ==> out.1.jobs_total == bundle.jobs@.len() && run_outcome(
                bundle.cluster,
                bundle.jobs@,
                out.0,
                out.1,
            )
            &&& r is Ok ==> exists|rm: ResourceManager|
                #[trigger] policy_run(scheduler@, bundle.cluster, rm, bundle.jobs@, r->Ok_0.0) && rm.mig_registry
                    == mig_registry && rm.gpu_selection == GpuSelectionPolicy::FirstFit
        },
{
    let jobs_total = bundle.jobs.len();
    if any_mig_job(&bundle.jobs) && mig_registry.is_none() {
        proof {
            reveal_strlit("forge bundle contains MIG jobs but no MIG profile registry is configured");
        }
        return Err(message("forge bundle contains MIG jobs but no MIG profile registry is configured"));
    }
    let resource_manager = match mig_registry {
        Some(registry) => ResourceManager::with_mig(registry),
        None => ResourceManager::new(),
    };
    run_to_completion_with_policy(bundle.cluster, scheduler, resource_manager, bundle.jobs, jobs_total)
}

} // verus!
