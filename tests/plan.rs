use tug::executor::{Step, StepOutcome};
use tug::labels::{default_group, Config, XTug};
use tug::model::{
    is_tugy, ParseSpan, ParsedContainer, ParsedContainerInject, ParsedContainerMount, ParsedContainerMountType,
    ParsedContainerNetwork, ParsedContainerPort, ParsedContainerSecret, ParsedDocument, ParsedExplicitContainerPort,
    ParsedImage, ParsedNetwork, ParsedProtocol, ParsedVolume, Spanned,
};
use tug::plan::{Action, ContainerAction, PostAction, StepStatus};
use tug::prepare::{prepare, EntityKind, PlanError};

fn span(start: usize) -> ParseSpan {
    ParseSpan { file: "app.tug.kdl".to_string(), start, end: start + 1 }
}

fn named(v: &str, at: usize) -> Spanned {
    Spanned { value: v.to_string(), span: span(at) }
}

fn image(name: &str, reference: &str) -> ParsedImage {
    ParsedImage { name: named(name, 0), reference: named(reference, 1), local: false }
}

fn container(name: &str, image: &str) -> ParsedContainer {
    ParsedContainer {
        name: named(name, 10),
        image: named(image, 11),
        command: None,
        ports: vec![],
        injects: vec![],
        networks: vec![],
        mounts: vec![],
        secrets: vec![],
    }
}

fn doc() -> ParsedDocument {
    ParsedDocument { images: vec![], containers: vec![], networks: vec![], volumes: vec![] }
}

fn container_action(step: &Step) -> &ContainerAction {
    match &step.action {
        Action::Container(a) => a,
        _ => panic!("not a container step"),
    }
}

#[test]
fn labels_and_defaults() {
    assert_eq!(default_group(), "default");
    assert_eq!(XTug::Group.as_str(), "X-Tug-Group");
    assert_eq!(XTug::Name.as_str(), "X-Tug-Name");
    assert_eq!(XTug::InjectFingerprint.as_str(), "X-Tug-Inject-Fingerprint");
    assert_eq!(XTug::SecretFingerprint.as_str(), "X-Tug-Secret-Fingerprint");
    assert_eq!(ParsedProtocol::Tcp.as_str(), "tcp");
    assert_eq!(ParsedProtocol::Udp.as_str(), "udp");
    let c = Config::new("unix:///run/podman.sock".to_string(), None);
    assert_eq!(c.group, "default");
    let c = Config::new("x".to_string(), Some("g".to_string()));
    assert_eq!(c.group, "g");
}

#[test]
fn document_file_names() {
    assert!(is_tugy("app.tug.kdl"));
    assert!(is_tugy("tug.kdl"));
    assert!(!is_tugy("xtug.kdl"));
    assert!(!is_tugy("app.kdl"));
    assert!(!is_tugy("app.tug.kdl.bak"));
    assert!(!is_tugy("kdl"));
}

#[test]
fn cold_create_plan() {
    let mut d = doc();
    d.images.push(image("nginx", "docker.io/nginx:1.25"));
    let mut c = container("c1", "nginx");
    c.ports.push(ParsedContainerPort::Shorthand(80));
    d.containers.push(c);
    let ex = match prepare(&d) {
        Ok(ex) => ex,
        Err(_) => panic!("plan failed"),
    };
    assert_eq!(ex.steps.len(), 3);
    match &ex.steps[0].action {
        Action::Garbage(g) => assert_eq!(g.container_names, vec!["c1".to_string()]),
        _ => panic!("first step is not the garbage pass"),
    }
    match &ex.steps[1].action {
        Action::Image(a) => {
            assert_eq!(a.resolved.0, 1);
            assert_eq!(a.reference, "docker.io/nginx:1.25");
        }
        _ => panic!("second step is not the image"),
    }
    let a = container_action(&ex.steps[2]);
    assert_eq!(a.name, "c1");
    assert_eq!(a.image.0, 1);
    assert_eq!(a.ports.len(), 1);
    assert_eq!(a.ports[0].container, 80);
    assert_eq!(a.ports[0].host, 80);
    assert_eq!(a.ports[0].protocol, ParsedProtocol::Tcp);
    assert_eq!(ex.steps[2].depends_on.iter().copied().collect::<Vec<_>>(), vec![1]);
    assert!(ex.steps.iter().all(|s| s.status == StepStatus::Queued));
}

#[test]
fn container_dependencies_are_its_producers() {
    let mut d = doc();
    d.images.push(image("a", "a:1"));
    d.images.push(image("b", "b:1"));
    d.networks.push(ParsedNetwork { name: named("n1", 2), dns_enabled: true, internal: false, driver: "bridge".to_string() });
    d.networks.push(ParsedNetwork { name: named("n2", 3), dns_enabled: true, internal: false, driver: "bridge".to_string() });
    d.volumes.push(ParsedVolume { name: named("v1", 4), driver: "local".to_string() });
    let mut c1 = container("one", "b");
    c1.networks.push(ParsedContainerNetwork { name: named("n2", 12), aliases: vec!["svc".to_string()] });
    c1.mounts.push(ParsedContainerMount { kind: ParsedContainerMountType::Volume, name: named("v1", 13), destination: "/data".to_string() });
    c1.secrets.push(ParsedContainerSecret { name: named("token", 14), target: None });
    c1.secrets.push(ParsedContainerSecret { name: named("key", 15), target: Some("KEY".to_string()) });
    let mut c2 = container("two", "a");
    c2.secrets.push(ParsedContainerSecret { name: named("key", 16), target: None });
    d.containers.push(c1);
    d.containers.push(c2);
    let ex = match prepare(&d) {
        Ok(ex) => ex,
        Err(_) => panic!("plan failed"),
    };
    // garbage, 2 images, 2 networks, 1 volume, 2 distinct secrets, 2 containers
    assert_eq!(ex.steps.len(), 10);
    let one = container_action(&ex.steps[8]);
    assert_eq!(one.image.0, 2);
    assert_eq!(one.networks[0].resolved.0, 2);
    assert_eq!(one.mounts[0].name_ref.0, 1);
    assert_eq!(one.secrets[0].name_ref.0, 1);
    assert_eq!(one.secrets[0].target, "token");
    assert_eq!(one.secrets[1].name_ref.0, 2);
    assert_eq!(one.secrets[1].target, "KEY");
    assert_eq!(ex.steps[8].depends_on.iter().copied().collect::<Vec<_>>(), vec![2, 4, 5, 6, 7]);
    let two = container_action(&ex.steps[9]);
    assert_eq!(two.image.0, 1);
    assert_eq!(two.secrets[0].name_ref.0, 2);
    assert_eq!(ex.steps[9].depends_on.iter().copied().collect::<Vec<_>>(), vec![1, 7]);
}

#[test]
fn duplicate_inject_paths_are_rejected() {
    let mut d = doc();
    d.images.push(image("i", "i"));
    let mut c = container("c", "i");
    c.injects.push(ParsedContainerInject { at: named("/etc/app.conf", 20), path: "./a.conf".to_string() });
    c.injects.push(ParsedContainerInject { at: named("/etc/app.conf", 30), path: "./b.conf".to_string() });
    d.containers.push(c);
    match prepare(&d) {
        Err(PlanError::DuplicateInjectPath(e)) => {
            assert_eq!(e.first.start, 20);
            assert_eq!(e.second.start, 30);
        }
        _ => panic!("duplicate inject paths were accepted"),
    }
}

#[test]
fn distinct_inject_paths_are_accepted() {
    let mut d = doc();
    d.images.push(image("i", "i"));
    let mut c = container("c", "i");
    c.injects.push(ParsedContainerInject { at: named("/etc/a", 20), path: "./a".to_string() });
    c.injects.push(ParsedContainerInject { at: named("/etc/b", 30), path: "./b".to_string() });
    d.containers.push(c);
    assert!(prepare(&d).is_ok());
}

#[test]
fn duplicate_names_are_rejected() {
    let mut d = doc();
    d.images.push(image("i", "i:1"));
    d.images.push(image("i", "i:2"));
    match prepare(&d) {
        Err(PlanError::DuplicateName(e)) => assert_eq!(e.kind, EntityKind::Image),
        _ => panic!("duplicate image names were accepted"),
    }
    let mut d = doc();
    d.images.push(image("i", "i:1"));
    d.containers.push(container("c", "i"));
    d.containers.push(container("c", "i"));
    match prepare(&d) {
        Err(PlanError::DuplicateName(e)) => assert_eq!(e.kind, EntityKind::Container),
        _ => panic!("duplicate container names were accepted"),
    }
}

#[test]
fn unknown_references_are_rejected() {
    let mut d = doc();
    d.containers.push(container("c", "missing"));
    match prepare(&d) {
        Err(PlanError::UnknownThing(e)) => {
            assert_eq!(e.thing, EntityKind::Image);
            assert_eq!(e.name, "missing");
        }
        _ => panic!("unknown image was accepted"),
    }
    let mut d = doc();
    d.images.push(image("i", "i"));
    let mut c = container("c", "i");
    c.networks.push(ParsedContainerNetwork { name: named("nope", 3), aliases: vec![] });
    d.containers.push(c);
    match prepare(&d) {
        Err(PlanError::UnknownThing(e)) => assert_eq!(e.thing, EntityKind::Network),
        _ => panic!("unknown network was accepted"),
    }
    let mut d = doc();
    d.images.push(image("i", "i"));
    let mut c = container("c", "i");
    c.mounts.push(ParsedContainerMount { kind: ParsedContainerMountType::Volume, name: named("nope", 3), destination: "/d".to_string() });
    d.containers.push(c);
    match prepare(&d) {
        Err(PlanError::UnknownThing(e)) => assert_eq!(e.thing, EntityKind::Volume),
        _ => panic!("unknown volume was accepted"),
    }
}

#[test]
fn commands_are_split_like_a_shell() {
    let mut d = doc();
    d.images.push(image("i", "i"));
    let mut c = container("c", "i");
    c.command = Some(named("sh -c 'echo hello world'", 40));
    d.containers.push(c);
    let ex = match prepare(&d) {
        Ok(ex) => ex,
        Err(_) => panic!("plan failed"),
    };
    let a = container_action(&ex.steps[2]);
    assert_eq!(a.command, Some(vec!["sh".to_string(), "-c".to_string(), "echo hello world".to_string()]));

    let mut d = doc();
    d.images.push(image("i", "i"));
    let mut c = container("c", "i");
    c.command = Some(named("echo 'unterminated", 41));
    d.containers.push(c);
    match prepare(&d) {
        Err(PlanError::MalformedCommand(e)) => assert_eq!(e.here.start, 41),
        _ => panic!("malformed command was accepted"),
    }
}

#[test]
fn explicit_ports_keep_their_fields() {
    let mut d = doc();
    d.images.push(image("i", "i"));
    let mut c = container("c", "i");
    c.ports.push(ParsedContainerPort::Explicit(ParsedExplicitContainerPort { container: 53, host: 5353, protocol: ParsedProtocol::Udp }));
    d.containers.push(c);
    let ex = match prepare(&d) {
        Ok(ex) => ex,
        Err(_) => panic!("plan failed"),
    };
    let a = container_action(&ex.steps[2]);
    assert_eq!((a.ports[0].container, a.ports[0].host, a.ports[0].protocol), (53, 5353, ParsedProtocol::Udp));
}

fn ok_outcome(resolved: Option<&str>) -> StepOutcome {
    StepOutcome { resolved: resolved.map(|s| s.to_string()), backtrack: vec![], finalize: vec![], failure: None }
}

#[test]
fn scheduler_runs_in_dependency_order() {
    let mut d = doc();
    d.images.push(image("i", "i"));
    d.containers.push(container("c", "i"));
    let mut ex = match prepare(&d) {
        Ok(ex) => ex,
        Err(_) => panic!("plan failed"),
    };
    ex.start();
    let mut first = vec![];
    while let Some(id) = ex.dispatch() {
        first.push(id);
    }
    first.sort();
    assert_eq!(first, vec![0, 1]);
    assert_eq!(ex.dispatch(), None);
    ex.complete(0, ok_outcome(None));
    assert_eq!(ex.dispatch(), None);
    ex.complete(1, ok_outcome(Some("sha256:abc")));
    assert_eq!(ex.resolved_image(tug::plan::ResolvedImageRef(1)), Some("sha256:abc".to_string()));
    assert_eq!(ex.dispatch(), Some(2));
    let mut out = ok_outcome(None);
    out.finalize.push(PostAction::DeleteContainer { id: "old".to_string() });
    out.backtrack.push(PostAction::DeleteContainer { id: "new".to_string() });
    ex.complete(2, out);
    assert!(ex.is_done());
    assert!(ex.steps.iter().all(|s| s.status == StepStatus::Complete));
    let post = ex.take_post_actions();
    assert_eq!(post.len(), 1);
    assert!(matches!(&post[0], PostAction::DeleteContainer { id } if id == "old"));
    assert!(ex.backtrack.is_empty() && ex.finalize.is_empty());
}

#[test]
fn scheduler_admits_four_steps_at_once() {
    let mut d = doc();
    for i in 0..6 {
        d.images.push(image(&format!("i{i}"), "x"));
    }
    let mut ex = match prepare(&d) {
        Ok(ex) => ex,
        Err(_) => panic!("plan failed"),
    };
    ex.start();
    let mut running = 0;
    while ex.dispatch().is_some() {
        running += 1;
    }
    assert_eq!(running, 4);
}

#[test]
fn failure_stops_admission_and_rolls_back() {
    let mut d = doc();
    d.images.push(image("i", "i"));
    d.containers.push(container("c", "i"));
    let mut ex = match prepare(&d) {
        Ok(ex) => ex,
        Err(_) => panic!("plan failed"),
    };
    ex.start();
    let a = ex.dispatch().unwrap();
    let b = ex.dispatch().unwrap();
    let mut failed = ok_outcome(None);
    failed.failure = Some("create failed".to_string());
    failed.backtrack.push(PostAction::RestartContainer { id: "prior".to_string() });
    ex.complete(a, failed);
    assert_eq!(ex.dispatch(), None);
    assert!(!ex.is_done());
    let mut other = ok_outcome(Some("sha"));
    other.finalize.push(PostAction::DeleteNetwork { id: "n".to_string() });
    ex.complete(b, other);
    assert!(ex.is_done());
    assert_eq!(ex.failures, vec!["create failed".to_string()]);
    let post = ex.take_post_actions();
    assert_eq!(post.len(), 1);
    assert!(matches!(&post[0], PostAction::RestartContainer { id } if id == "prior"));
    assert_eq!(ex.steps[2].status, StepStatus::Queued);
}

#[test]
fn empty_plan_finishes_at_once() {
    let d = doc();
    let mut ex = match prepare(&d) {
        Ok(ex) => ex,
        Err(_) => panic!("plan failed"),
    };
    ex.start();
    assert_eq!(ex.dispatch(), Some(0));
    ex.complete(0, ok_outcome(None));
    assert!(ex.is_done());
    assert!(ex.take_post_actions().is_empty());
}

#[test]
fn repeated_names_are_reported_before_container_defects() {
    let mut d = doc();
    d.containers.push(container("c", "missing"));
    d.volumes.push(ParsedVolume { name: named("v", 4), driver: "local".to_string() });
    d.volumes.push(ParsedVolume { name: named("v", 5), driver: "local".to_string() });
    match prepare(&d) {
        Err(PlanError::DuplicateName(e)) => {
            assert_eq!(e.kind, EntityKind::Volume);
            assert_eq!(e.first_name.start, 4);
            assert_eq!(e.second_name.start, 5);
        }
        _ => panic!("repeated volume name not reported first"),
    }
}

#[test]
fn first_defective_container_is_reported() {
    let mut d = doc();
    d.images.push(image("i", "i"));
    let mut first = container("a", "i");
    first.injects.push(ParsedContainerInject { at: named("/x", 20), path: "./x".to_string() });
    first.injects.push(ParsedContainerInject { at: named("/x", 21), path: "./y".to_string() });
    d.containers.push(first);
    d.containers.push(container("a", "missing"));
    match prepare(&d) {
        Err(PlanError::DuplicateInjectPath(_)) => {}
        _ => panic!("the first container's defect was not reported"),
    }
    let mut d = doc();
    d.images.push(image("i", "i"));
    d.containers.push(container("a", "i"));
    d.containers.push(container("a", "missing"));
    match prepare(&d) {
        Err(PlanError::DuplicateName(e)) => assert_eq!(e.kind, EntityKind::Container),
        _ => panic!("repeated container name not reported before its unknown image"),
    }
}
