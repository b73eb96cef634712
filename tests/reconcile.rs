use base64::Engine;
use tug::containers::{
    check_mount_mappings, check_network_mappings, check_port_mappings, container_created, create_request, decide_container,
    inject_label_matches, inject_tree, ContainerPlan, ObservedContainer, RemoteAttachment, RemoteMount, RemotePort,
    ResolvedContainer, SecretBinding, WantedMount, WantedNetwork,
};
use tug::fingerprint::{decode_inject_label, encode_inject_label, encode_node, nodes_same, parse_node, InjectNode};
use tug::model::ParsedProtocol;
use tug::plan::{ContainerActionPort, NetworkAction, PostAction, ResolvedNetworkRef, ResolvedVolumeRef, VolumeAction};
use tug::reconcile::{
    split_reference, down_plan, find_secret, garbage_plan, image_plan, network_created, network_plan, pull_event, volume_created,
    volume_plan, ImagePlan, LabeledResource, NetworkPlan, PullProgress, RemoteGroupContainer, RemoteNetwork,
    RemoteSecret, RemoteVolume, VolumePlan,
};
use tug::secrets::{secret_fingerprint_matches, secret_label, secret_print_from_fulls, FullSecret};

fn tcp(c: u16, h: u16) -> ContainerActionPort {
    ContainerActionPort { container: c, host: h, protocol: ParsedProtocol::Tcp }
}

fn remote_tcp(c: u16, h: u16) -> RemotePort {
    RemotePort { container_port: Some(c), host_port: Some(h), protocol: Some("tcp".to_string()) }
}

fn strings(v: &[&str]) -> Vec<String> {
    v.iter().map(|s| s.to_string()).collect()
}

fn file(mtime: u128, len: u64) -> InjectNode {
    InjectNode::File { mtime, len }
}

#[test]
fn port_multisets() {
    let twice = vec![tcp(80, 80), tcp(80, 80)];
    assert!(check_port_mappings(&twice, &vec![remote_tcp(80, 80), remote_tcp(80, 80)]));
    assert!(!check_port_mappings(&twice, &vec![remote_tcp(80, 80)]));
    assert!(!check_port_mappings(&vec![tcp(80, 80)], &vec![remote_tcp(80, 80), remote_tcp(80, 80)]));
    assert!(check_port_mappings(&vec![tcp(80, 80), tcp(443, 8443)], &vec![remote_tcp(443, 8443), remote_tcp(80, 80)]));
    let udp = RemotePort { container_port: Some(80), host_port: Some(80), protocol: Some("udp".to_string()) };
    assert!(!check_port_mappings(&vec![tcp(80, 80)], &vec![udp]));
    let partial = RemotePort { container_port: Some(80), host_port: None, protocol: Some("tcp".to_string()) };
    assert!(!check_port_mappings(&vec![tcp(80, 80)], &vec![partial]));
    assert!(check_port_mappings(&vec![], &vec![]));
}

#[test]
fn mount_multisets() {
    let wanted = vec![WantedMount { volume: "data".to_string(), destination: "/data".to_string() }];
    let same = vec![RemoteMount { name: Some("data".to_string()), destination: Some("/data".to_string()) }];
    let moved = vec![RemoteMount { name: Some("data".to_string()), destination: Some("/srv".to_string()) }];
    assert!(check_mount_mappings(&wanted, &same));
    assert!(!check_mount_mappings(&wanted, &moved));
    assert!(!check_mount_mappings(&wanted, &vec![]));
}

fn attach(name: &str, aliases: &[&str]) -> RemoteAttachment {
    RemoteAttachment { network: name.to_string(), aliases: Some(strings(aliases)) }
}

fn want(name: &str, aliases: &[&str]) -> WantedNetwork {
    WantedNetwork { network: name.to_string(), aliases: strings(aliases) }
}

#[test]
fn alias_tolerance_of_one() {
    assert!(check_network_mappings(&vec![want("net", &["svc"])], &vec![attach("net", &["svc", "4f2a9c1b"])]));
    assert!(check_network_mappings(&vec![want("net", &["svc", "api"])], &vec![attach("net", &["svc"])]));
    assert!(!check_network_mappings(&vec![want("net", &["svc", "api"])], &vec![attach("net", &["other", "extra"])]));
    assert!(!check_network_mappings(&vec![want("net", &["svc"])], &vec![attach("net", &["svc", "a", "b"])]));
    assert!(check_network_mappings(&vec![want("net", &["a", "b"])], &vec![attach("net", &["b", "a"])]));
}

#[test]
fn every_network_must_match() {
    let wanted = vec![want("a", &["x"]), want("b", &["y"])];
    assert!(check_network_mappings(&wanted, &vec![attach("a", &["x"]), attach("b", &["y"])]));
    assert!(!check_network_mappings(&wanted, &vec![attach("a", &["x"]), attach("b", &["p", "q"])]));
    assert!(!check_network_mappings(&wanted, &vec![attach("a", &["x"])]));
    assert!(!check_network_mappings(&wanted, &vec![attach("a", &["x"]), attach("c", &["y"])]));
    let none = RemoteAttachment { network: "a".to_string(), aliases: None };
    assert!(check_network_mappings(&vec![want("a", &["x"])], &vec![none]));
}

fn tree_with_odd_names() -> InjectNode {
    InjectNode::Directory(vec![
        (vec![0xff, 0xfe, b'a'], file(1_700_000_000_123, 42)),
        (b"sub".to_vec(), InjectNode::Directory(vec![(b"x.conf".to_vec(), file(u128::MAX, u64::MAX))])),
        (vec![], InjectNode::Directory(vec![])),
    ])
}

#[test]
fn fingerprint_bytes_round_trip() {
    let t = tree_with_odd_names();
    let mut bytes = Vec::new();
    encode_node(&t, &mut bytes);
    let (back, used) = parse_node(&bytes, 0).unwrap();
    assert_eq!(used, bytes.len());
    assert!(nodes_same(&t, &back));
    assert!(nodes_same(&back, &t));
    let mut again = Vec::new();
    encode_node(&back, &mut again);
    assert_eq!(again, bytes);
    let mut file_bytes = Vec::new();
    encode_node(&file(5, 7), &mut file_bytes);
    assert_eq!(file_bytes.len(), 31);
    assert_eq!(&file_bytes[..6], &[0x81, 0xa1, b'f', 0x92, 0xc4, 0x10]);
    assert_eq!(file_bytes[21], 5);
    assert_eq!(file_bytes[30], 7);
    assert!(parse_node(&bytes[..bytes.len() - 1].to_vec(), 0).is_none());
}

#[test]
fn fingerprint_label_round_trip() {
    let t = tree_with_odd_names();
    let label = encode_inject_label(&t).unwrap();
    assert!(!label.contains('=') && !label.contains('+') && !label.contains('/'));
    assert_ne!(label.len(), 0);
    let back = decode_inject_label(&label).unwrap();
    assert!(nodes_same(&t, &back));
    assert!(decode_inject_label(&"not base64!".to_string()).is_none());
    assert!(decode_inject_label(&"AAAA".to_string()).is_none());
}

#[test]
fn fingerprint_comparison_is_structural() {
    let a = InjectNode::Directory(vec![(b"a".to_vec(), file(1, 2)), (b"b".to_vec(), file(3, 4))]);
    let reordered = InjectNode::Directory(vec![(b"b".to_vec(), file(3, 4)), (b"a".to_vec(), file(1, 2))]);
    let touched = InjectNode::Directory(vec![(b"a".to_vec(), file(9, 2)), (b"b".to_vec(), file(3, 4))]);
    let grown = InjectNode::Directory(vec![(b"a".to_vec(), file(1, 3)), (b"b".to_vec(), file(3, 4))]);
    let fewer = InjectNode::Directory(vec![(b"a".to_vec(), file(1, 2))]);
    assert!(nodes_same(&a, &reordered));
    assert!(!nodes_same(&a, &touched));
    assert!(!nodes_same(&a, &grown));
    assert!(!nodes_same(&a, &fewer));
    assert!(!nodes_same(&file(1, 2), &InjectNode::Directory(vec![])));
}

fn full(id: &str, t: i64) -> FullSecret {
    FullSecret { id: id.to_string(), target: "T".to_string(), updated_at: t }
}

#[test]
fn secret_fingerprints_ignore_order() {
    let a = secret_print_from_fulls(&vec![full("b", 1), full("a", 5), full("a", 2)]);
    let b = secret_print_from_fulls(&vec![full("a", 2), full("b", 1), full("a", 5)]);
    let ids: Vec<(String, i64)> = a.iter().map(|p| (p.id.clone(), p.updated_at)).collect();
    assert_eq!(ids, vec![("a".to_string(), 2), ("a".to_string(), 5), ("b".to_string(), 1)]);
    let ids_b: Vec<(String, i64)> = b.iter().map(|p| (p.id.clone(), p.updated_at)).collect();
    assert_eq!(ids, ids_b);
    assert_eq!(secret_label(&a), secret_label(&b));
}

#[test]
fn secret_fingerprint_label_matching() {
    let prints = secret_print_from_fulls(&vec![full("s1", 10)]);
    let label = secret_label(&prints).unwrap();
    assert!(secret_fingerprint_matches(&Some(label.clone()), &prints));
    let newer = secret_print_from_fulls(&vec![full("s1", 11)]);
    assert!(!secret_fingerprint_matches(&Some(label.clone()), &newer));
    assert!(!secret_fingerprint_matches(&None, &prints));
    assert!(secret_fingerprint_matches(&None, &vec![]));
    assert!(!secret_fingerprint_matches(&Some(label), &vec![]));
}

fn resolved() -> ResolvedContainer {
    ResolvedContainer {
        name: "c1".to_string(),
        image: "sha256:img".to_string(),
        command: None,
        ports: vec![tcp(80, 80)],
        networks: vec![],
        mounts: vec![],
        secrets: vec![],
    }
}

fn observed(id: &str, running: bool, inject_label: Option<String>) -> ObservedContainer {
    ObservedContainer {
        id: id.to_string(),
        image: Some("sha256:img".to_string()),
        command: None,
        ports: vec![remote_tcp(80, 80)],
        networks: vec![],
        mounts: vec![],
        inject_label,
        secret_label: None,
        running,
    }
}

#[test]
fn container_decisions() {
    let d = resolved();
    let no_injects = inject_tree(&vec![], vec![]);
    assert!(matches!(decide_container(&d, &vec![], &no_injects, &vec![]), ContainerPlan::Create));
    match decide_container(&d, &vec![observed("abc", true, None)], &no_injects, &vec![]) {
        ContainerPlan::Adopt { id, start } => {
            assert_eq!(id, "abc");
            assert!(!start);
        }
        _ => panic!("matching container not adopted"),
    }
    match decide_container(&d, &vec![observed("abc", false, None)], &no_injects, &vec![]) {
        ContainerPlan::Adopt { start, .. } => assert!(start),
        _ => panic!("stopped container not adopted"),
    }
    match decide_container(&d, &vec![observed("a", true, None), observed("b", true, None)], &no_injects, &vec![]) {
        ContainerPlan::Replace { stop, backtrack, finalize } => {
            assert_eq!(stop, strings(&["a", "b"]));
            assert!(matches!(&backtrack[1], PostAction::RestartContainer { id } if id == "b"));
            assert!(matches!(&finalize[0], PostAction::DeleteContainer { id } if id == "a"));
        }
        _ => panic!("two containers not replaced"),
    }
}

#[test]
fn inject_drift_forces_recreation() {
    let d = resolved();
    let ats = strings(&["/etc/app.conf"]);
    let before = inject_tree(&ats, vec![file(1000, 10)]);
    let label = encode_inject_label(&before).unwrap();
    assert!(inject_label_matches(&Some(label.clone()), &before));
    let same_again = inject_tree(&ats, vec![file(1000, 10)]);
    assert!(matches!(decide_container(&d, &vec![observed("x", true, Some(label.clone()))], &same_again, &vec![]), ContainerPlan::Adopt { .. }));
    let touched = inject_tree(&ats, vec![file(2000, 10)]);
    match decide_container(&d, &vec![observed("x", true, Some(label.clone()))], &touched, &vec![]) {
        ContainerPlan::Replace { stop, backtrack, finalize } => {
            assert_eq!(stop, strings(&["x"]));
            assert!(matches!(&backtrack[0], PostAction::RestartContainer { id } if id == "x"));
            assert!(matches!(&finalize[0], PostAction::DeleteContainer { id } if id == "x"));
            let out = container_created(backtrack, finalize, "new".to_string());
            assert_eq!(out.backtrack.len(), 2);
            assert!(matches!(&out.backtrack[1], PostAction::DeleteContainer { id } if id == "new"));
        }
        _ => panic!("drifted inject not detected"),
    }
    assert!(!inject_label_matches(&None, &before));
    assert!(!inject_label_matches(&Some("garbage".to_string()), &before));
}

#[test]
fn create_request_labels() {
    let ats = strings(&["/etc/app.conf"]);
    let fresh = inject_tree(&ats, vec![file(1000, 10)]);
    let mut d = resolved();
    d.secrets.push(SecretBinding { id: "sid".to_string(), target: "TOKEN".to_string() });
    let prints = secret_print_from_fulls(&vec![full("sid", 7)]);
    let req = create_request(&"default".to_string(), d, &fresh, &prints);
    assert_eq!(req.image, "sha256:img");
    assert_eq!(req.labels[0], ("X-Tug-Group".to_string(), "default".to_string()));
    assert_eq!(req.labels[1], ("X-Tug-Name".to_string(), "c1".to_string()));
    assert_eq!(req.labels[2].0, "X-Tug-Inject-Fingerprint");
    assert!(inject_label_matches(&Some(req.labels[2].1.clone()), &fresh));
    assert_eq!(req.labels[3].0, "X-Tug-Secret-Fingerprint");
    assert!(secret_fingerprint_matches(&Some(req.labels[3].1.clone()), &prints));
    assert_eq!(req.secret_env[0].target, "TOKEN");
    let plain = create_request(&"g".to_string(), resolved(), &inject_tree(&vec![], vec![]), &vec![]);
    assert_eq!(plain.labels.len(), 3);
}

#[test]
fn image_decisions() {
    assert!(matches!(image_plan(&strings(&["id1", "id2"]), false), ImagePlan::Adopt(id) if id == "id1"));
    assert!(matches!(image_plan(&vec![], true), ImagePlan::Missing));
    assert!(matches!(image_plan(&vec![], false), ImagePlan::Pull));
    assert!(matches!(pull_event(Some("boom".to_string()), Some("id".to_string())), PullProgress::Failed(e) if e == "boom"));
    assert!(matches!(pull_event(None, Some("id".to_string())), PullProgress::Resolved(i) if i == "id"));
    assert!(matches!(pull_event(None, None), PullProgress::Continue));
}

fn net_action() -> NetworkAction {
    NetworkAction { name: "n".to_string(), dns_enabled: true, internal: false, driver: "bridge".to_string(), resolved: ResolvedNetworkRef(1) }
}

fn remote_net(id: &str, driver: &str) -> RemoteNetwork {
    RemoteNetwork {
        id: Some(id.to_string()),
        name: Some(format!("name-{id}")),
        dns_enabled: Some(true),
        driver: Some(driver.to_string()),
        internal: Some(false),
    }
}

#[test]
fn network_decisions() {
    assert!(matches!(network_plan(&net_action(), &vec![remote_net("1", "bridge")]), NetworkPlan::Adopt(n) if n == "name-1"));
    match network_plan(&net_action(), &vec![remote_net("1", "macvlan")]) {
        NetworkPlan::Create(fin) => {
            assert_eq!(fin.len(), 1);
            assert!(matches!(&fin[0], PostAction::DeleteNetwork { id } if id == "1"));
        }
        _ => panic!("divergent network adopted"),
    }
    match network_plan(&net_action(), &vec![remote_net("1", "bridge"), remote_net("2", "bridge")]) {
        NetworkPlan::Create(fin) => assert_eq!(fin.len(), 2),
        _ => panic!("two networks adopted"),
    }
    match network_plan(&net_action(), &vec![]) {
        NetworkPlan::Create(fin) => assert!(fin.is_empty()),
        _ => panic!("nothing adopted"),
    }
    let out = network_created(vec![], "nid".to_string(), "nname".to_string());
    assert_eq!(out.resolved, Some("nname".to_string()));
    assert!(matches!(&out.backtrack[0], PostAction::DeleteNetwork { id } if id == "nid"));
}

#[test]
fn volume_decisions() {
    let action = VolumeAction { name: "v".to_string(), driver: "local".to_string(), resolved: ResolvedVolumeRef(1) };
    let local = RemoteVolume { name: "vol".to_string(), driver: "local".to_string() };
    assert!(matches!(volume_plan(&action, &vec![local]), VolumePlan::Adopt(n) if n == "vol"));
    let other = RemoteVolume { name: "vol".to_string(), driver: "nfs".to_string() };
    match volume_plan(&action, &vec![other]) {
        VolumePlan::Create(fin) => assert!(matches!(&fin[0], PostAction::DeleteVolume { name } if name == "vol")),
        _ => panic!("divergent volume adopted"),
    }
    let out = volume_created(vec![], "fresh".to_string());
    assert_eq!(out.resolved, Some("fresh".to_string()));
    assert!(matches!(&out.backtrack[0], PostAction::DeleteVolume { name } if name == "fresh"));
}

#[test]
fn secret_lookup_prefers_labels() {
    let plain = RemoteSecret { id: "s-plain".to_string(), name: "token".to_string(), group_label: None, name_label: None };
    let owned = RemoteSecret {
        id: "s-owned".to_string(),
        name: "other".to_string(),
        group_label: Some("default".to_string()),
        name_label: Some("token".to_string()),
    };
    let g = "default".to_string();
    let n = "token".to_string();
    assert_eq!(find_secret(&g, &n, &vec![plain, owned]), Some("s-owned".to_string()));
    let plain = RemoteSecret { id: "s-plain".to_string(), name: "token".to_string(), group_label: None, name_label: None };
    assert_eq!(find_secret(&g, &n, &vec![plain]), Some("s-plain".to_string()));
    assert_eq!(find_secret(&g, &n, &vec![]), None);
}

fn grouped(id: &str, name: &str, running: bool) -> RemoteGroupContainer {
    RemoteGroupContainer { id: Some(id.to_string()), name_label: Some(name.to_string()), running }
}

#[test]
fn garbage_pass() {
    let plan = garbage_plan(&strings(&["a"]), &vec![grouped("1", "a", true), grouped("2", "b", true), grouped("3", "c", false)]);
    assert_eq!(plan.stop, strings(&["2"]));
    assert_eq!(plan.backtrack.len(), 1);
    assert!(matches!(&plan.backtrack[0], PostAction::RestartContainer { id } if id == "2"));
    assert_eq!(plan.finalize.len(), 2);
    assert!(matches!(&plan.finalize[0], PostAction::DeleteContainer { id } if id == "2"));
    assert!(matches!(&plan.finalize[1], PostAction::DeleteContainer { id } if id == "3"));
    let idle = garbage_plan(&strings(&["a"]), &vec![grouped("1", "a", true)]);
    assert!(idle.stop.is_empty() && idle.backtrack.is_empty() && idle.finalize.is_empty());
}

fn labeled(id: &str, group: Option<&str>, running: bool) -> LabeledResource {
    LabeledResource { id: id.to_string(), group: group.map(|g| g.to_string()), running }
}

#[test]
fn down_removes_only_the_group() {
    let containers = vec![labeled("c1", Some("g"), true), labeled("c2", Some("h"), true), labeled("c3", Some("g"), false), labeled("c4", None, true)];
    let networks = vec![labeled("n1", Some("g"), false), labeled("n2", Some("h"), false)];
    let volumes = vec![labeled("v1", None, false), labeled("v2", Some("g"), false)];
    let plan = down_plan(&"g".to_string(), &containers, &networks, &volumes);
    assert_eq!(plan.stop, strings(&["c1"]));
    assert_eq!(plan.delete_containers, strings(&["c1", "c3"]));
    assert_eq!(plan.delete_networks, strings(&["n1"]));
    assert_eq!(plan.delete_volumes, strings(&["v2"]));
}

#[test]
fn references_split_at_the_last_colon() {
    assert_eq!(split_reference(&"docker.io/nginx:1.25".to_string()), ("docker.io/nginx".to_string(), Some("1.25".to_string())));
    assert_eq!(split_reference(&"localhost:5000/app:v2".to_string()), ("localhost:5000/app".to_string(), Some("v2".to_string())));
    assert_eq!(split_reference(&"alpine".to_string()), ("alpine".to_string(), None));
    assert_eq!(split_reference(&"alpine:".to_string()), ("alpine".to_string(), Some(String::new())));
}

#[test]
fn second_run_adopts_what_the_first_created() {
    let ats = strings(&["/etc/app.conf"]);
    let fresh = inject_tree(&ats, vec![file(1000, 10)]);
    let prints = secret_print_from_fulls(&vec![full("sid", 7)]);
    let mut d = resolved();
    d.secrets.push(SecretBinding { id: "sid".to_string(), target: "TOKEN".to_string() });
    d.networks.push(want("net", &["svc"]));
    d.mounts.push(WantedMount { volume: "data".to_string(), destination: "/data".to_string() });
    let req = create_request(&"default".to_string(), d, &fresh, &prints);
    let label = |key: &str| req.labels.iter().find(|(k, _)| k == key).map(|(_, v)| v.clone());
    let seen = ObservedContainer {
        id: "new".to_string(),
        image: Some(req.image.clone()),
        command: req.command.clone(),
        ports: req.ports.iter().map(|p| remote_tcp(p.container, p.host)).collect(),
        networks: vec![attach("net", &["svc", "1a2b3c"])],
        mounts: vec![RemoteMount { name: Some("data".to_string()), destination: Some("/data".to_string()) }],
        inject_label: label("X-Tug-Inject-Fingerprint"),
        secret_label: label("X-Tug-Secret-Fingerprint"),
        running: true,
    };
    let mut again = resolved();
    again.secrets.push(SecretBinding { id: "sid".to_string(), target: "TOKEN".to_string() });
    again.networks.push(want("net", &["svc"]));
    again.mounts.push(WantedMount { volume: "data".to_string(), destination: "/data".to_string() });
    let same_fresh = inject_tree(&ats, vec![file(1000, 10)]);
    let same_prints = secret_print_from_fulls(&vec![full("sid", 7)]);
    match decide_container(&again, &vec![seen], &same_fresh, &same_prints) {
        ContainerPlan::Adopt { id, start } => {
            assert_eq!(id, "new");
            assert!(!start);
        }
        _ => panic!("unchanged container not adopted"),
    }
}

#[test]
fn secret_label_is_messagepack_of_the_pairs() {
    let prints = secret_print_from_fulls(&vec![full("s1", 10)]);
    let label = secret_label(&prints).unwrap();
    let expected = base64::engine::general_purpose::URL_SAFE_NO_PAD.encode([0x91u8, 0x92, 0xa2, b's', b'1', 0x0a]);
    assert_eq!(label, expected);
}
