use forgesim::config::{ConfigError, HardwareProfile};
use forgesim::forge_bundle::{
    api_version_of, flatten_documents, forge_bundle_from_documents, forge_jobs, forge_jobs_in_range,
    gpu_count_from_spec, gpu_count_in_range, kind_of, lookup_runtime, map_gpu_type, parse_arrival_time,
    parse_fabric_ai_job, parse_fabric_gpu_nodes, parse_fabric_quotas, parse_tenant_quotas, resolve_tenant,
    run_forge_bundle_with, validate_forge_doc, GpuTypeRegistry, ModelProfile, ModelProfileEntry,
};
use forgesim::mig::{MigProfileRegistry, MigProfileSpec};
use forgesim::text::split_documents;
use forgesim::yaml::YamlValue;

fn to_yaml(v: &serde_yaml::Value) -> YamlValue {
    match v {
        serde_yaml::Value::Null => YamlValue::Null,
        serde_yaml::Value::Bool(b) => YamlValue::Bool(*b),
        serde_yaml::Value::Number(n) => match n.as_i64() {
            Some(i) => YamlValue::Int(i),
            None => YamlValue::Other,
        },
        serde_yaml::Value::String(s) => YamlValue::Str(s.clone()),
        serde_yaml::Value::Sequence(items) => YamlValue::Sequence(items.iter().map(to_yaml).collect()),
        serde_yaml::Value::Mapping(m) => YamlValue::Mapping(
            m.iter()
                .filter_map(|(k, v)| k.as_str().map(|k| (k.to_string(), to_yaml(v))))
                .collect(),
        ),
        serde_yaml::Value::Tagged(t) => to_yaml(&t.value),
    }
}

fn yaml(text: &str) -> YamlValue {
    to_yaml(&serde_yaml::from_str::<serde_yaml::Value>(text).unwrap())
}

/// Splits, parses and flattens a YAML stream as the bundle loader does.
fn yaml_documents(content: &str) -> Result<Vec<YamlValue>, serde_yaml::Error> {
    let mut docs = Vec::new();
    for chunk in split_documents(content) {
        docs.push(to_yaml(&serde_yaml::from_str::<serde_yaml::Value>(&chunk)?));
    }
    Ok(flatten_documents(docs))
}

fn invalid_message(e: ConfigError) -> String {
    match e {
        ConfigError::Invalid(m) => m,
    }
}

fn registry() -> GpuTypeRegistry {
    GpuTypeRegistry {
        mappings: vec![
            ("A100".to_string(), "A100_80GB".to_string()),
            ("H100".to_string(), "H100_80GB".to_string()),
        ],
    }
}

fn profiles() -> Vec<ModelProfile> {
    vec![
        ModelProfile {
            model: "llama-7b".to_string(),
            profiles: vec![
                ("A100".to_string(), ModelProfileEntry { runtime_seconds: 3600, gpu_memory_gb: 40 }),
                ("H100".to_string(), ModelProfileEntry { runtime_seconds: 1800, gpu_memory_gb: 40 }),
            ],
        },
        ModelProfile {
            model: "gpt-13b".to_string(),
            profiles: vec![("H100".to_string(), ModelProfileEntry { runtime_seconds: 7200, gpu_memory_gb: 70 })],
        },
    ]
}

fn hardware() -> Vec<HardwareProfile> {
    vec![HardwareProfile {
        name: "H100_80GB".to_string(),
        memory_gb: 80,
        sm: None,
        mig_profiles: vec!["1g.10gb".to_string()],
        nvlink_bw_gbs: Some(900),
        pcie_bw_gbs: Some(64),
        mig: true,
    }]
}

fn quota_docs() -> Vec<YamlValue> {
    yaml_documents(
        "apiVersion: forge.ai/v1\nkind: FabricQuota\nspec:\n  team: ml-training\n  namespaces: [training, research]\n  gpuQuota:\n    maxGPUs: 64\n---\napiVersion: forge.ai/v1\nkind: FabricQuota\nspec:\n  team: inference\n  namespaces: [serving]\n  gpuQuota:\n    maxGPUs: 16\n",
    )
    .unwrap()
}

#[test]
fn gpu_count_distributed() {
    let spec = yaml(
        r#"
            gpus: 8
            distributed:
              enabled: true
              nodes: 4
              gpusPerNode: 8
            "#,
    );
    assert_eq!(gpu_count_from_spec(&spec), 32);
}

#[test]
fn gpu_count_non_distributed() {
    let spec = yaml("gpus: 4");
    assert_eq!(gpu_count_from_spec(&spec), 4);
}

#[test]
fn yaml_documents_unwraps_kubectl_list_output() {
    let content = r#"
apiVersion: v1
items:
- apiVersion: forge.ai/v1
  kind: FabricAIJob
  metadata:
    name: job-a
    namespace: default
  spec:
    model: llama-7b
    gpus: 4
    gpuType: A100
- apiVersion: forge.ai/v1
  kind: FabricAIJob
  metadata:
    name: job-b
    namespace: default
  spec:
    model: gpt-13b
    gpus: 2
    gpuType: H100
kind: List
metadata:
  resourceVersion: ""
"#;
    let docs = yaml_documents(content).expect("parse kubectl List output");
    assert_eq!(docs.len(), 2);
    assert_eq!(kind_of(&docs[0]), Some("FabricAIJob"));
    assert_eq!(
        docs[0].get("metadata").and_then(|m| m.get("name")).and_then(|n| n.as_str()),
        Some("job-a")
    );
    assert_eq!(api_version_of(&docs[1]), Some("forge.ai/v1"));
}

#[test]
fn yaml_documents_still_handles_dash_separated_docs() {
    let content = "apiVersion: forge.ai/v1\nkind: FabricAIJob\nmetadata:\n  name: a\n---\napiVersion: forge.ai/v1\nkind: FabricAIJob\nmetadata:\n  name: b\n";
    let docs = yaml_documents(content).expect("parse multi-doc yaml");
    assert_eq!(docs.len(), 2);
}

#[test]
fn yaml_documents_empty_list_yields_no_docs() {
    let content = "apiVersion: v1\nitems: []\nkind: List\n";
    let docs = yaml_documents(content).expect("parse empty list");
    assert!(docs.is_empty());
}

#[test]
fn split_documents_trims_and_drops_empty_pieces() {
    let docs = split_documents("\n---\n  a: 1  \n---\n\n---\nb: 2\n");
    assert_eq!(docs, vec!["a: 1".to_string(), "b: 2".to_string()]);
    assert!(split_documents("   \n\t").is_empty());
    assert_eq!(split_documents("x: 1"), vec!["x: 1".to_string()]);
}

#[test]
fn flatten_drops_null_documents_and_keeps_others() {
    let docs = flatten_documents(vec![YamlValue::Null, yaml("kind: FabricQuota"), yaml("kind: List")]);
    assert_eq!(docs.len(), 1);
    assert_eq!(kind_of(&docs[0]), Some("FabricQuota"));
}

#[test]
fn validate_forge_doc_checks_api_version() {
    assert!(validate_forge_doc(&yaml("apiVersion: forge.ai/v1")).is_ok());
    assert_eq!(
        invalid_message(validate_forge_doc(&yaml("apiVersion: v1")).unwrap_err()),
        "unsupported apiVersion 'v1', expected 'forge.ai/v1'"
    );
    assert_eq!(invalid_message(validate_forge_doc(&yaml("kind: X")).unwrap_err()), "missing apiVersion");
}

#[test]
fn map_gpu_type_uses_registry() {
    assert_eq!(map_gpu_type("H100", &registry()).unwrap(), "H100_80GB");
    assert_eq!(invalid_message(map_gpu_type("B200", &registry()).unwrap_err()), "unknown gpuType 'B200'");
}

#[test]
fn lookup_runtime_requires_calibrated_profile() {
    assert_eq!(lookup_runtime("gpt-13b", "H100", &profiles()).unwrap(), (7200, 70));
    assert_eq!(
        invalid_message(lookup_runtime("mistral", "H100", &profiles()).unwrap_err()),
        "no calibrated profile for model 'mistral' (required in profiles-dir)"
    );
    assert_eq!(
        invalid_message(lookup_runtime("gpt-13b", "A100", &profiles()).unwrap_err()),
        "no calibrated profile for model 'gpt-13b' gpuType 'A100'"
    );
}

#[test]
fn quotas_are_checked_and_keyed_by_team() {
    let quotas = parse_fabric_quotas(quota_docs()).unwrap();
    assert_eq!(quotas.len(), 2);
    let mut docs = quota_docs();
    docs.push(yaml("apiVersion: forge.ai/v1\nkind: FabricQuota\nspec:\n  team: ml-training\n  gpuQuota:\n    maxGPUs: 8\n"));
    docs.push(yaml("apiVersion: forge.ai/v1\nkind: FabricAIJob\n"));
    let quotas = parse_fabric_quotas(docs).unwrap();
    assert_eq!(quotas.len(), 3);
    let mut table = parse_tenant_quotas(&quotas);
    table.sort();
    assert_eq!(table, vec![("inference".to_string(), 16), ("ml-training".to_string(), 8)]);
    let bad = vec![yaml("apiVersion: v2\nkind: FabricQuota\n")];
    assert_eq!(
        invalid_message(parse_fabric_quotas(bad).unwrap_err()),
        "unsupported apiVersion 'v2', expected 'forge.ai/v1'"
    );
}

#[test]
fn tenant_is_resolved_from_quotas() {
    let quotas = quota_docs();
    assert_eq!(resolve_tenant("research", &quotas), Some("ml-training".to_string()));
    assert_eq!(resolve_tenant("serving", &quotas), Some("inference".to_string()));
    assert_eq!(resolve_tenant("elsewhere", &quotas), None);
    let open = vec![yaml("spec:\n  team: everyone\n")];
    assert_eq!(resolve_tenant("elsewhere", &open), Some("everyone".to_string()));
    let broken = vec![yaml("kind: FabricQuota\n"), yaml("spec:\n  team: later\n")];
    assert_eq!(resolve_tenant("x", &broken), None);
}

#[test]
fn parses_gang_job_with_tenant() {
    let doc = yaml(
        r#"
apiVersion: forge.ai/v1
kind: FabricAIJob
metadata:
  name: gpt-distributed-training
  namespace: training
  annotations:
    forge.ai/gang-schedule: "true"
    forge.ai/gang-size: "4"
spec:
  model: gpt-13b
  gpuType: H100
  gpus: 8
  priority: 5
  network: rdma
  distributed:
    enabled: true
    nodes: 4
    gpusPerNode: 8
"#,
    );
    let job = parse_fabric_ai_job(&doc, &quota_docs(), &profiles(), &registry()).unwrap();
    assert_eq!(job.id, "training/gpt-distributed-training");
    assert_eq!(job.name, "gpt-distributed-training");
    assert_eq!(job.gpu_count, 32);
    assert_eq!(job.tenant.as_deref(), Some("ml-training"));
    assert_eq!(job.runtime, 7200);
    assert_eq!(job.gpu_memory_gb, 70);
    assert_eq!(job.priority, 5);
    assert_eq!(job.network_bw_gbps, Some(400));
    assert!(job.gang_enabled);
    assert_eq!(job.gang_size_nodes, Some(4));
    assert_eq!(job.gpu_type.as_deref(), Some("H100"));
    assert_eq!(job.namespace.as_deref(), Some("training"));
    assert_eq!(job.arrival_time, 0);
}

#[test]
fn parses_mig_job() {
    let doc = yaml(
        "apiVersion: forge.ai/v1\nkind: FabricAIJob\nmetadata:\n  name: mig-inference\n  namespace: serving\nspec:\n  model: llama-7b\n  gpuType: H100\n  network: sriov\n  mig:\n    profile: 1g.10gb\n    count: 2\n",
    );
    let job = parse_fabric_ai_job(&doc, &quota_docs(), &profiles(), &registry()).unwrap();
    assert_eq!(job.gpu_count, 2);
    assert_eq!(job.mig_profile.as_deref(), Some("1g.10gb"));
    assert_eq!(job.mig_count, Some(2));
    assert_eq!(job.tenant.as_deref(), Some("inference"));
    assert_eq!(job.network_bw_gbps, Some(200));
    assert!(!job.gang_enabled);
    assert_eq!(job.gang_size_nodes, None);
}

#[test]
fn job_defaults_and_model_from_name() {
    let doc = yaml("apiVersion: forge.ai/v1\nkind: FabricAIJob\nmetadata:\n  name: llama-7b\nspec:\n  gpuType: A100\n");
    let job = parse_fabric_ai_job(&doc, &Vec::new(), &profiles(), &registry()).unwrap();
    assert_eq!(job.id, "default/llama-7b");
    assert_eq!(job.gpu_count, 1);
    assert_eq!(job.runtime, 3600);
    assert_eq!(job.tenant, None);
    assert_eq!(job.priority, 0);
    assert_eq!(job.network_bw_gbps, None);
}

#[test]
fn job_document_errors() {
    let p = profiles();
    let r = registry();
    let q = Vec::new();
    let cases = [
        ("kind: FabricAIJob\n", "missing apiVersion"),
        ("apiVersion: forge.ai/v1\nkind: FabricQuota\n", "expected FabricAIJob"),
        ("apiVersion: forge.ai/v1\nkind: FabricAIJob\nspec: {}\n", "missing metadata"),
        ("apiVersion: forge.ai/v1\nkind: FabricAIJob\nmetadata: {}\n", "missing spec"),
        (
            "apiVersion: forge.ai/v1\nkind: FabricAIJob\nmetadata: {}\nspec: {}\n",
            "no calibrated profile for model 'unknown' (required in profiles-dir)",
        ),
    ];
    for (text, message) in cases {
        let e = parse_fabric_ai_job(&yaml(text), &q, &p, &r).unwrap_err();
        assert_eq!(invalid_message(e), message);
    }
}

#[test]
fn gang_size_must_be_a_number() {
    let doc = yaml(
        "apiVersion: forge.ai/v1\nkind: FabricAIJob\nmetadata:\n  name: llama-7b\n  annotations:\n    forge.ai/gang-size: \"+12\"\n    forge.ai/gang-schedule: \"yes\"\nspec:\n  gpuType: A100\n",
    );
    let job = parse_fabric_ai_job(&doc, &Vec::new(), &profiles(), &registry()).unwrap();
    assert_eq!(job.gang_size_nodes, Some(12));
    assert!(!job.gang_enabled);
    let doc = yaml(
        "apiVersion: forge.ai/v1\nkind: FabricAIJob\nmetadata:\n  name: llama-7b\n  annotations:\n    forge.ai/gang-size: \"4294967296\"\nspec:\n  gpuType: A100\n",
    );
    let job = parse_fabric_ai_job(&doc, &Vec::new(), &profiles(), &registry()).unwrap();
    assert_eq!(job.gang_size_nodes, None);
}

#[test]
fn overflowing_distributed_count_is_detected() {
    let spec = yaml("distributed:\n  enabled: true\n  nodes: 65536\n  gpusPerNode: 65536\n");
    assert!(!gpu_count_in_range(&spec));
    let spec = yaml("distributed:\n  enabled: true\n  nodes: 65536\n  gpusPerNode: 65535\n");
    assert!(gpu_count_in_range(&spec));
    assert_eq!(gpu_count_from_spec(&spec), 65536 * 65535);
    assert_eq!(parse_arrival_time(&spec), 0);
}

#[test]
fn parses_gpu_nodes() {
    let docs = yaml_documents(
        "apiVersion: forge.ai/v1\nkind: FabricGpuNode\nspec:\n  nodeName: node-a\n  gpuType: H100\n  gpuCount: 3\n---\napiVersion: forge.ai/v1\nkind: FabricQuota\n---\napiVersion: forge.ai/v1\nkind: FabricGpuNode\nspec:\n  nodeName: node-b\n  gpuType: A100\n  gpuCount: 2\n  memoryGB: 40\n",
    )
    .unwrap();
    let cluster = parse_fabric_gpu_nodes(&docs, &registry(), &hardware()).unwrap();
    assert_eq!(cluster.nodes.len(), 2);
    let a = &cluster.nodes[0];
    assert_eq!(a.id, "node-a");
    assert_eq!(a.gpus.len(), 3);
    assert_eq!(a.gpus[2].id, "node-a-gpu-2");
    assert_eq!(a.gpus[2].nvlink_group, Some(1));
    assert_eq!(a.gpus[0].profile, "H100_80GB");
    assert_eq!(a.gpus[0].memory_gb, 80);
    assert!(a.gpus[0].mig_capable);
    let b = &cluster.nodes[1];
    assert_eq!(b.gpus[1].id, "node-b-gpu-1");
    assert_eq!(b.gpus[1].memory_gb, 40);
    assert!(!b.gpus[1].mig_capable);
    assert!(cluster.is_wf());
}

#[test]
fn gpu_node_errors() {
    let r = registry();
    let hw = hardware();
    let none = parse_fabric_gpu_nodes(&vec![yaml("kind: FabricQuota")], &r, &hw).unwrap_err();
    assert_eq!(invalid_message(none), "no FabricGpuNode documents found in cluster/");
    let cases = [
        ("kind: FabricGpuNode\n", "missing apiVersion"),
        ("apiVersion: forge.ai/v1\nkind: FabricGpuNode\n", "missing spec"),
        ("apiVersion: forge.ai/v1\nkind: FabricGpuNode\nspec: {}\n", "FabricGpuNode missing nodeName"),
        ("apiVersion: forge.ai/v1\nkind: FabricGpuNode\nspec:\n  nodeName: n\n", "unknown gpuType 'any'"),
    ];
    for (text, message) in cases {
        let e = parse_fabric_gpu_nodes(&vec![yaml(text)], &r, &hw).unwrap_err();
        assert_eq!(invalid_message(e), message);
    }
}

#[test]
fn bundle_from_documents_runs_to_completion() {
    let quotas = parse_fabric_quotas(quota_docs()).unwrap();
    let jobs = yaml_documents(
        "apiVersion: forge.ai/v1\nkind: FabricAIJob\nmetadata:\n  name: a\n  namespace: training\nspec:\n  model: gpt-13b\n  gpuType: H100\n  gpus: 2\n---\napiVersion: forge.ai/v1\nkind: FabricAIJob\nmetadata:\n  name: b\n  namespace: serving\nspec:\n  model: llama-7b\n  gpuType: H100\n  gpus: 4\n",
    )
    .unwrap();
    let nodes = yaml_documents(
        "apiVersion: forge.ai/v1\nkind: FabricGpuNode\nspec:\n  nodeName: node-a\n  gpuType: H100\n  gpuCount: 4\n",
    )
    .unwrap();
    assert!(forge_jobs_in_range(&jobs, &profiles()));
    let bundle = forge_bundle_from_documents(&quotas, &jobs, &nodes, &profiles(), &registry(), &hardware()).unwrap();
    assert_eq!(bundle.jobs.len(), 2);
    assert_eq!(bundle.cluster.tenant_quotas.len(), 2);
    assert!(bundle.cluster.is_wf());
    let (cluster, metrics) = run_forge_bundle_with(bundle, None, "fifo").unwrap();
    assert_eq!(metrics.jobs_completed, 2);
    assert_eq!(metrics.jobs_total, 2);
    assert_eq!(cluster.finished_jobs.len(), 2);
    assert!(cluster.running_jobs.is_empty());
    assert_eq!(metrics.makespan, 7200 + 1800);
}

#[test]
fn bundle_errors() {
    let no_jobs = forge_jobs(&vec![yaml("kind: FabricGpuNode")], &Vec::new(), &profiles(), &registry());
    assert_eq!(invalid_message(no_jobs.unwrap_err()), "no FabricAIJob documents in jobs/");
    let jobs = vec![yaml(
        "apiVersion: forge.ai/v1\nkind: FabricAIJob\nmetadata:\n  name: m\nspec:\n  model: llama-7b\n  gpuType: H100\n  mig:\n    profile: 1g.10gb\n",
    )];
    let nodes = vec![yaml("apiVersion: forge.ai/v1\nkind: FabricGpuNode\nspec:\n  nodeName: n\n  gpuType: H100\n")];
    let bundle = forge_bundle_from_documents(&Vec::new(), &jobs, &nodes, &profiles(), &registry(), &hardware()).unwrap();
    let e = run_forge_bundle_with(bundle, None, "fifo").unwrap_err();
    assert_eq!(invalid_message(e), "forge bundle contains MIG jobs but no MIG profile registry is configured");
    let bundle = forge_bundle_from_documents(&Vec::new(), &jobs, &nodes, &profiles(), &registry(), &hardware()).unwrap();
    let registry = MigProfileRegistry {
        hardware: "H100_80GB".to_string(),
        reconfig_seconds: 30,
        profiles: vec![("1g.10gb".to_string(), MigProfileSpec { memory_gb: 10, max_per_gpu: 7 })],
    };
    let e = run_forge_bundle_with(bundle, Some(registry), "lottery").unwrap_err();
    assert_eq!(invalid_message(e), "unsupported scheduler type 'lottery'");
}

#[test]
fn forge_mig_bundle_reconfigures_once() {
    let jobs = vec![yaml(
        "apiVersion: forge.ai/v1\nkind: FabricAIJob\nmetadata:\n  name: m\nspec:\n  model: llama-7b\n  gpuType: H100\n  mig:\n    profile: 1g.10gb\n    count: 2\n",
    )];
    let nodes = vec![yaml("apiVersion: forge.ai/v1\nkind: FabricGpuNode\nspec:\n  nodeName: n\n  gpuType: H100\n")];
    let bundle = forge_bundle_from_documents(&Vec::new(), &jobs, &nodes, &profiles(), &registry(), &hardware()).unwrap();
    let registry = MigProfileRegistry {
        hardware: "H100_80GB".to_string(),
        reconfig_seconds: 30,
        profiles: vec![("1g.10gb".to_string(), MigProfileSpec { memory_gb: 10, max_per_gpu: 7 })],
    };
    let (_, metrics) = run_forge_bundle_with(bundle, Some(registry), "fifo").unwrap();
    assert_eq!(metrics.jobs_completed, 1);
    assert_eq!(metrics.mig_reconfigs, 1);
    assert_eq!(metrics.makespan, 30 + 1800);
}

#[test]
fn bundle_runs_accept_every_scheduler_name() {
    let nodes = yaml_documents(
        "apiVersion: forge.ai/v1\nkind: FabricGpuNode\nspec:\n  nodeName: node-a\n  gpuType: H100\n  gpuCount: 4\n",
    )
    .unwrap();
    let jobs = yaml_documents(
        "apiVersion: forge.ai/v1\nkind: FabricAIJob\nmetadata:\n  name: a\nspec:\n  model: gpt-13b\n  gpuType: H100\n  gpus: 2\n",
    )
    .unwrap();
    for (name, completed) in [("fifo", 1), ("priority", 1), ("preemptive", 1), ("forge", 1), ("bestfit", 0)] {
        let bundle = forge_bundle_from_documents(&Vec::new(), &jobs, &nodes, &profiles(), &registry(), &hardware()).unwrap();
        let (_, metrics) = run_forge_bundle_with(bundle, None, name).unwrap();
        assert_eq!(metrics.jobs_total, 1);
        assert_eq!(metrics.jobs_completed, completed);
    }
}

#[test]
fn gpu_node_keeps_a_negative_memory_size() {
    let docs = yaml_documents(
        "apiVersion: forge.ai/v1\nkind: FabricGpuNode\nspec:\n  nodeName: odd\n  gpuType: H100\n  gpuCount: 1\n  memoryGB: -5\n",
    )
    .unwrap();
    let cluster = parse_fabric_gpu_nodes(&docs, &registry(), &hardware()).unwrap();
    assert_eq!(cluster.nodes[0].gpus[0].memory_gb, -5);
    let rm = forgesim::resource::ResourceManager::new();
    let mut job = forgesim::models::Job::new("j", "j", 0, 10, 1);
    assert!(rm.can_place(&cluster, &job));
    job.gpu_memory_gb = 1;
    assert!(!rm.can_place(&cluster, &job));
}
