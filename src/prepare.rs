use vstd::prelude::*;
use std::collections::BTreeSet;
use crate::executor::{Executor, Step};
use crate::model::{
    ParseSpan, ParsedContainer, ParsedContainerPort, ParsedDocument, ParsedImage, ParsedNetwork,
    ParsedProtocol, ParsedVolume,
};
use crate::plan::{
    consumes, Action, ContainerAction, ContainerActionInject, ContainerActionMount,
    ContainerActionNetwork, ContainerActionPort, ContainerActionSecret, GarbageAction, ImageAction,
    NetworkAction, ResolvedImageRef, ResolvedNetworkRef, ResolvedSecretRef, ResolvedVolumeRef,
    SecretAction, StepStatus, VolumeAction,
};

verus! {

broadcast use vstd::laws_cmp::group_laws_cmp;

/// The words of a shell command line, or none when its quoting is malformed.
pub uninterp spec fn shlex_words(s: Seq<char>) -> Option<Seq<Seq<char>>>;

pub open spec fn string_views(v: Seq<String>) -> Seq<Seq<char>> {
    v.map_values(|w: String| w@)
}

/// Relies on shlex::split: it splits a command line into words the way a
/// POSIX shell does, and returns None on unbalanced quotes or a trailing
/// escape.
#[verifier::external_body]
fn split_command(s: &String) -> (r: Option<Vec<String>>)
    ensures
        match r {
            Some(v) => shlex_words(s@) == Some(string_views(v@)),
            None => shlex_words(s@) is None,
        },
{
    shlex::split(s)
}

/// The kinds of named things a document declares or references.
#[derive(PartialEq, Eq, Structural, Clone, Copy, Debug)]
pub enum EntityKind {
    Image,
    Network,
    Volume,
    Secret,
    Container,
}

/// A name declared twice within one kind.
pub struct DuplicateName {
    pub kind: EntityKind,
    /// The earlier definition.
    pub first_name: ParseSpan,
    /// The repeated one.
    pub second_name: ParseSpan,
}

/// A reference to a name that no entity of the kind declares.
pub struct UnknownThing {
    pub name: String,
    pub span: ParseSpan,
    pub thing: EntityKind,
}

/// Two injects of one container with the same destination path.
pub struct DuplicateInjectPath {
    pub first: ParseSpan,
    pub second: ParseSpan,
}

/// A command line whose quoting cannot be split into words.
pub struct MalformedCommand {
    pub here: ParseSpan,
}

/// Why a document cannot be planned.
pub enum PlanError {
    DuplicateName(DuplicateName),
    UnknownThing(UnknownThing),
    DuplicateInjectPath(DuplicateInjectPath),
    MalformedCommand(MalformedCommand),
}

pub open spec fn image_names(d: ParsedDocument) -> Seq<Seq<char>> {
    d.images@.map_values(|x: ParsedImage| x.name.value@)
}

pub open spec fn network_names(d: ParsedDocument) -> Seq<Seq<char>> {
    d.networks@.map_values(|x: ParsedNetwork| x.name.value@)
}

pub open spec fn volume_names(d: ParsedDocument) -> Seq<Seq<char>> {
    d.volumes@.map_values(|x: ParsedVolume| x.name.value@)
}

pub open spec fn container_names(d: ParsedDocument) -> Seq<Seq<char>> {
    d.containers@.map_values(|x: ParsedContainer| x.name.value@)
}

pub open spec fn inject_paths(c: ParsedContainer) -> Seq<Seq<char>> {
    c.injects@.map_values(|x: crate::model::ParsedContainerInject| x.at.value@)
}

pub open spec fn container_secret_names(c: ParsedContainer) -> Seq<Seq<char>> {
    c.secrets@.map_values(|x: crate::model::ParsedContainerSecret| x.name.value@)
}

/// Every secret reference of the containers, in document order.
pub open spec fn secret_uses(cs: Seq<ParsedContainer>) -> Seq<Seq<char>>
    decreases cs.len(),
{
    if cs.len() == 0 {
        seq![]
    } else {
        secret_uses(cs.drop_last()) + container_secret_names(cs.last())
    }
}

/// The distinct elements of `s`, in order of first occurrence.
pub open spec fn dedup(s: Seq<Seq<char>>) -> Seq<Seq<char>>
    decreases s.len(),
{
    if s.len() == 0 {
        seq![]
    } else {
        let d = dedup(s.drop_last());
        if d.contains(s.last()) {
            d
        } else {
            d.push(s.last())
        }
    }
}

/// The secrets a plan resolves: each distinct referenced name once.
pub open spec fn secret_names(d: ParsedDocument) -> Seq<Seq<char>> {
    dedup(secret_uses(d.containers@))
}

/// Whether a container's references resolve and its fields are well formed.
pub open spec fn container_ok(d: ParsedDocument, c: ParsedContainer) -> bool {
    &&& inject_paths(c).no_duplicates()
    &&& image_names(d).contains(c.image.value@)
    &&& forall|k: int|
        0 <= k < c.networks.len() ==> network_names(d).contains(#[trigger] c.networks@[k].name.value@)
    &&& forall|k: int|
        0 <= k < c.mounts.len() ==> volume_names(d).contains(#[trigger] c.mounts@[k].name.value@)
    &&& match c.command {
        Some(cmd) => shlex_words(cmd.value@) is Some,
        None => true,
    }
}

/// Whether a document can be planned.
pub open spec fn document_ok(d: ParsedDocument) -> bool {
    &&& image_names(d).no_duplicates()
    &&& network_names(d).no_duplicates()
    &&& volume_names(d).no_duplicates()
    &&& container_names(d).no_duplicates()
    &&& forall|c: int| 0 <= c < d.containers.len() ==> container_ok(d, #[trigger] d.containers@[c])
}

pub open spec fn image_spans(d: ParsedDocument) -> Seq<(Seq<char>, usize, usize)> {
    d.images@.map_values(|x: ParsedImage| x.name.span@)
}

pub open spec fn network_spans(d: ParsedDocument) -> Seq<(Seq<char>, usize, usize)> {
    d.networks@.map_values(|x: ParsedNetwork| x.name.span@)
}

pub open spec fn volume_spans(d: ParsedDocument) -> Seq<(Seq<char>, usize, usize)> {
    d.volumes@.map_values(|x: ParsedVolume| x.name.span@)
}

/// Whether `e` reports a name of the kind repeated at positions `i < j`,
/// with the spans of both definitions.
pub open spec fn duplicate_error(
    e: PlanError,
    kind: EntityKind,
    names: Seq<Seq<char>>,
    spans: Seq<(Seq<char>, usize, usize)>,
) -> bool {
    e matches PlanError::DuplicateName(x) && x.kind == kind && exists|i: int, j: int|
        0 <= i < j < names.len() && names[i] == names[j] && x.first_name@ == spans[i] && x.second_name@
            == spans[j]
}

/// Whether container `c` has a name that no earlier container has and is
/// otherwise well formed.
pub open spec fn container_fine(d: ParsedDocument, c: int) -> bool {
    &&& forall|j: int| 0 <= j < c ==> d.containers@[j].name.value@ != d.containers@[c].name.value@
    &&& container_ok(d, d.containers@[c])
}

/// Whether `e` reports a defect of container `c` other than its name, in
/// the order the checks run: inject paths first, then references, then the
/// command.
pub open spec fn container_error(d: ParsedDocument, c: int, e: PlanError) -> bool {
    let ct = d.containers@[c];
    match e {
        PlanError::DuplicateInjectPath(_) => !inject_paths(ct).no_duplicates(),
        PlanError::UnknownThing(x) => inject_paths(ct).no_duplicates() && {
            ||| (x.thing == EntityKind::Image && x.name@ == ct.image.value@ && !image_names(d).contains(x.name@))
            ||| (x.thing == EntityKind::Network && !network_names(d).contains(x.name@) && exists|k: int|
                0 <= k < ct.networks.len() && ct.networks@[k].name.value@ == x.name@)
            ||| (x.thing == EntityKind::Volume && !volume_names(d).contains(x.name@) && exists|k: int|
                0 <= k < ct.mounts.len() && ct.mounts@[k].name.value@ == x.name@)
        },
        PlanError::MalformedCommand(x) => inject_paths(ct).no_duplicates() && match ct.command {
            Some(cmd) => shlex_words(cmd.value@) is None && cmd.span@ == x.here@,
            None => false,
        },
        _ => false,
    }
}

/// Whether `e` reports the first defective container, all earlier ones
/// being fine: a repeated name comes before the container's other defects.
pub open spec fn first_container_error(d: ParsedDocument, e: PlanError) -> bool {
    exists|c: int|
        #![trigger d.containers@[c]]
        0 <= c < d.containers.len() && (forall|j: int| 0 <= j < c ==> container_fine(d, j)) && (
        if exists|j: int| 0 <= j < c && d.containers@[j].name.value@ == d.containers@[c].name.value@ {
            e matches PlanError::DuplicateName(x) && x.kind == EntityKind::Container && x.second_name@
                == d.containers@[c].name.span@
        } else {
            container_error(d, c, e)
        })
}

/// The error a document with defects gets: repeated image, network and
/// volume names, in that order, before any container defect.
pub open spec fn reported_first(d: ParsedDocument, e: PlanError) -> bool {
    if !image_names(d).no_duplicates() {
        duplicate_error(e, EntityKind::Image, image_names(d), image_spans(d))
    } else if !network_names(d).no_duplicates() {
        duplicate_error(e, EntityKind::Network, network_names(d), network_spans(d))
    } else if !volume_names(d).no_duplicates() {
        duplicate_error(e, EntityKind::Volume, volume_names(d), volume_spans(d))
    } else {
        first_container_error(d, e)
    }
}

pub open spec fn port_of(p: ParsedContainerPort) -> ContainerActionPort {
    match p {
        ParsedContainerPort::Shorthand(n) => ContainerActionPort {
            container: n,
            host: n,
            protocol: ParsedProtocol::Tcp,
        },
        ParsedContainerPort::Explicit(e) => ContainerActionPort {
            container: e.container,
            host: e.host,
            protocol: e.protocol,
        },
    }
}

/// Whether `a` is the fully resolved form of container `c` of document `d`.
pub open spec fn action_of(d: ParsedDocument, c: ParsedContainer, a: ContainerAction) -> bool {
    &&& a.name@ == c.name.value@
    &&& 1 <= a.image.0 <= d.images.len() && image_names(d)[a.image.0 - 1] == c.image.value@
    &&& a.ports.len() == c.ports.len()
    &&& forall|k: int| 0 <= k < a.ports.len() ==> a.ports@[k] == port_of(#[trigger] c.ports@[k])
    &&& a.injects.len() == c.injects.len()
    &&& forall|k: int|
        0 <= k < a.injects.len() ==> (#[trigger] a.injects@[k]).at@ == c.injects@[k].at.value@
            && a.injects@[k].path@ == c.injects@[k].path@
    &&& a.networks.len() == c.networks.len()
    &&& forall|k: int|
        0 <= k < a.networks.len() ==> {
            let r = (#[trigger] a.networks@[k]).resolved.0;
            &&& 1 <= r <= d.networks.len()
            &&& network_names(d)[r - 1] == c.networks@[k].name.value@
            &&& string_views(a.networks@[k].aliases@) == string_views(c.networks@[k].aliases@)
        }
    &&& a.mounts.len() == c.mounts.len()
    &&& forall|k: int|
        0 <= k < a.mounts.len() ==> {
            let r = (#[trigger] a.mounts@[k]).name_ref.0;
            &&& 1 <= r <= d.volumes.len()
            &&& volume_names(d)[r - 1] == c.mounts@[k].name.value@
            &&& a.mounts@[k].destination@ == c.mounts@[k].destination@
            &&& a.mounts@[k].kind == c.mounts@[k].kind
        }
    &&& a.secrets.len() == c.secrets.len()
    &&& forall|k: int|
        0 <= k < a.secrets.len() ==> {
            let r = (#[trigger] a.secrets@[k]).name_ref.0;
            &&& 1 <= r <= secret_names(d).len()
            &&& secret_names(d)[r - 1] == c.secrets@[k].name.value@
            &&& a.secrets@[k].target@ == match c.secrets@[k].target {
                Some(t) => t@,
                None => c.secrets@[k].name.value@,
            }
        }
    &&& match c.command {
        None => a.command is None,
        Some(cmd) => a.command is Some && shlex_words(cmd.value@) == Some(
            string_views(a.command.unwrap()@),
        ),
    }
}

/// Steps that produce the references a container action reads.
pub open spec fn producers(a: ContainerAction, steps: Seq<Step>) -> Set<usize> {
    Set::new(|p: usize| p < steps.len() && consumes(a, steps[p as int].action))
}

pub open spec fn garbage_laid(d: ParsedDocument, steps: Seq<Step>) -> bool {
    &&& steps.len() >= 1
    &&& match steps[0].action {
        Action::Garbage(g) => string_views(g.container_names@) == container_names(d),
        _ => false,
    }
    &&& steps[0].depends_on@.is_empty()
}

pub open spec fn images_laid(d: ParsedDocument, steps: Seq<Step>, n: int) -> bool {
    forall|i: int|
        0 <= i < n ==> match (#[trigger] steps[1 + i]).action {
            Action::Image(a) => {
                &&& a.resolved.0 == i + 1
                &&& a.name@ == d.images@[i].name.value@
                &&& a.reference@ == d.images@[i].reference.value@
                &&& a.reference_span@ == d.images@[i].reference.span@
                &&& a.local == d.images@[i].local
                &&& steps[1 + i].depends_on@.is_empty()
            },
            _ => false,
        }
}

pub open spec fn networks_laid(d: ParsedDocument, steps: Seq<Step>, n: int) -> bool {
    let base = 1 + d.images.len();
    forall|i: int|
        0 <= i < n ==> match (#[trigger] steps[base + i]).action {
            Action::Network(a) => {
                &&& a.resolved.0 == i + 1
                &&& a.name@ == d.networks@[i].name.value@
                &&& a.dns_enabled == d.networks@[i].dns_enabled
                &&& a.internal == d.networks@[i].internal
                &&& a.driver@ == d.networks@[i].driver@
                &&& steps[base + i].depends_on@.is_empty()
            },
            _ => false,
        }
}

pub open spec fn volumes_laid(d: ParsedDocument, steps: Seq<Step>, n: int) -> bool {
    let base = 1 + d.images.len() + d.networks.len();
    forall|i: int|
        0 <= i < n ==> match (#[trigger] steps[base + i]).action {
            Action::Volume(a) => {
                &&& a.resolved.0 == i + 1
                &&& a.name@ == d.volumes@[i].name.value@
                &&& a.driver@ == d.volumes@[i].driver@
                &&& steps[base + i].depends_on@.is_empty()
            },
            _ => false,
        }
}

/// The secret section, for the first `n` names of `names`.
pub open spec fn secrets_laid(d: ParsedDocument, steps: Seq<Step>, names: Seq<Seq<char>>, n: int) -> bool {
    let base = 1 + d.images.len() + d.networks.len() + d.volumes.len();
    forall|i: int|
        0 <= i < n ==> match (#[trigger] steps[base + i]).action {
            Action::Secret(a) => {
                &&& a.resolved.0 == i + 1
                &&& a.name.value@ == names[i]
                &&& steps[base + i].depends_on@.is_empty()
            },
            _ => false,
        }
}

/// The container section, for the first `n` containers.
pub open spec fn containers_laid(d: ParsedDocument, steps: Seq<Step>, n: int) -> bool {
    let base = 1 + d.images.len() + d.networks.len() + d.volumes.len() + secret_names(d).len();
    forall|i: int|
        0 <= i < n ==> match (#[trigger] steps[base + i]).action {
            Action::Container(a) => {
                &&& action_of(d, d.containers@[i], a)
                &&& steps[base + i].depends_on@ == producers(a, steps)
            },
            _ => false,
        }
}

/// The layout of a plan: the garbage step, then one step per image,
/// network, volume, distinct secret and container, in document order.
pub open spec fn plan_of(d: ParsedDocument, steps: Seq<Step>) -> bool {
    &&& steps.len() == 1 + d.images.len() + d.networks.len() + d.volumes.len()
        + secret_names(d).len() + d.containers.len()
    &&& forall|k: int| 0 <= k < steps.len() ==> (#[trigger] steps[k]).status == StepStatus::Queued
    &&& garbage_laid(d, steps)
    &&& images_laid(d, steps, d.images.len() as int)
    &&& networks_laid(d, steps, d.networks.len() as int)
    &&& volumes_laid(d, steps, d.volumes.len() as int)
    &&& secrets_laid(d, steps, secret_names(d), secret_names(d).len() as int)
    &&& containers_laid(d, steps, d.containers.len() as int)
}

/// The strings' copies.
pub fn copy_strings(v: &Vec<String>) -> (r: Vec<String>)
    ensures
        string_views(r@) == string_views(v@),
{
    let mut r: Vec<String> = Vec::new();
    let mut i: usize = 0;
    while i < v.len()
        invariant
            i <= v.len(),
            string_views(r@) == string_views(v@.subrange(0, i as int)),
        decreases v.len() - i,
    {
        let ghost before = r@;
        r.push(v[i].clone());
        proof {
            assert(string_views(r@) =~= string_views(before).push(v@[i as int]@));
            assert(string_views(v@.subrange(0, i + 1)) =~= string_views(v@.subrange(0, i as int)).push(
                v@[i as int]@,
            ));
        }
        i += 1;
    }
    assert(v@.subrange(0, v.len() as int) =~= v@);
    r
}

/// The first index holding `x`, if any.
fn position_of(names: &Vec<String>, x: &String) -> (r: Option<usize>)
    ensures
        match r {
            Some(i) => i < names.len() && names@[i as int]@ == x@,
            None => !string_views(names@).contains(x@),
        },
{
    let mut i: usize = 0;
    while i < names.len()
        invariant
            i <= names.len(),
            forall|k: int| 0 <= k < i ==> names@[k]@ != x@,
        decreases names.len() - i,
    {
        if names[i].eq(x) {
            return Some(i);
        }
        i += 1;
    }
    proof {
        if string_views(names@).contains(x@) {
            let k = choose|k: int| 0 <= k < names.len() && string_views(names@)[k] == x@;
            assert(names@[k]@ == x@);
        }
    }
    None
}

/// Two indices holding the same string, if there are any.
fn find_duplicate(names: &Vec<String>) -> (r: Option<(usize, usize)>)
    ensures
        match r {
            Some((i, j)) => i < j < names.len() && names@[i as int]@ == names@[j as int]@,
            None => string_views(names@).no_duplicates(),
        },
{
    let n = names.len();
    let mut j: usize = 0;
    while j < n
        invariant
            j <= n,
            n == names.len(),
            forall|a: int, b: int| 0 <= a < b < j ==> names@[a]@ != names@[b]@,
        decreases n - j,
    {
        let mut i: usize = 0;
        while i < j
            invariant
                i <= j < n,
                n == names.len(),
                forall|a: int| 0 <= a < i ==> names@[a]@ != names@[j as int]@,
            decreases j - i,
        {
            if names[i].eq(&names[j]) {
                return Some((i, j));
            }
            i += 1;
        }
        j += 1;
    }
    None
}

/// An executor that holds only queued steps and has not started.
pub open spec fn building(ex: Executor) -> bool {
    &&& ex.wf()
    &&& !ex.started
    &&& ex.failures.len() == 0
    &&& ex.backtrack.len() == 0
    &&& ex.finalize.len() == 0
}

proof fn lemma_building_queued(ex: Executor)
    requires
        building(ex),
    ensures
        forall|k: int| 0 <= k < ex.steps.len() ==> (#[trigger] ex.steps@[k]).status == StepStatus::Queued,
{
}

fn add_garbage(ex: &mut Executor, d: &ParsedDocument)
    requires
        building(*old(ex)),
        old(ex).steps.len() == 0,
    ensures
        building(*final(ex)),
        final(ex).steps.len() == 1,
        garbage_laid(*d, final(ex).steps@),
{
    let mut names: Vec<String> = Vec::new();
    let mut i: usize = 0;
    while i < d.containers.len()
        invariant
            i <= d.containers.len(),
            string_views(names@) == container_names(*d).subrange(0, i as int),
        decreases d.containers.len() - i,
    {
        let ghost before = names@;
        names.push(d.containers[i].name.value.clone());
        proof {
            assert(string_views(names@) =~= string_views(before).push(names@[i as int]@));
            assert(container_names(*d).subrange(0, i + 1) =~= container_names(*d).subrange(0, i as int).push(
                d.containers@[i as int].name.value@,
            ));
        }
        i += 1;
    }
    assert(container_names(*d).subrange(0, d.containers.len() as int) =~= container_names(*d));
    ex.new_step(Action::Garbage(GarbageAction { container_names: names }), BTreeSet::new());
}

fn add_images(ex: &mut Executor, d: &ParsedDocument)
    requires
        building(*old(ex)),
        old(ex).steps.len() == 1,
        garbage_laid(*d, old(ex).steps@),
        1 + d.images.len() < usize::MAX,
    ensures
        building(*final(ex)),
        final(ex).steps.len() == 1 + d.images.len(),
        garbage_laid(*d, final(ex).steps@),
        images_laid(*d, final(ex).steps@, d.images.len() as int),
{
    let mut i: usize = 0;
    while i < d.images.len()
        invariant
            i <= d.images.len(),
            1 + d.images.len() < usize::MAX,
            building(*ex),
            ex.steps.len() == 1 + i,
            garbage_laid(*d, ex.steps@),
            images_laid(*d, ex.steps@, i as int),
        decreases d.images.len() - i,
    {
        let img = &d.images[i];
        let action = ImageAction {
            resolved: ResolvedImageRef(i + 1),
            name: img.name.value.clone(),
            reference: img.reference.value.clone(),
            reference_span: img.reference.span.duplicate(),
            local: img.local,
        };
        ex.new_step(Action::Image(action), BTreeSet::new());
        i += 1;
    }
}

fn add_networks(ex: &mut Executor, d: &ParsedDocument)
    requires
        building(*old(ex)),
        old(ex).steps.len() == 1 + d.images.len(),
        garbage_laid(*d, old(ex).steps@),
        images_laid(*d, old(ex).steps@, d.images.len() as int),
        1 + d.images.len() + d.networks.len() < usize::MAX,
    ensures
        building(*final(ex)),
        final(ex).steps.len() == 1 + d.images.len() + d.networks.len(),
        garbage_laid(*d, final(ex).steps@),
        images_laid(*d, final(ex).steps@, d.images.len() as int),
        networks_laid(*d, final(ex).steps@, d.networks.len() as int),
{
    let mut i: usize = 0;
    while i < d.networks.len()
        invariant
            i <= d.networks.len(),
            1 + d.images.len() + d.networks.len() < usize::MAX,
            building(*ex),
            ex.steps.len() == 1 + d.images.len() + i,
            garbage_laid(*d, ex.steps@),
            images_laid(*d, ex.steps@, d.images.len() as int),
            networks_laid(*d, ex.steps@, i as int),
        decreases d.networks.len() - i,
    {
        let net = &d.networks[i];
        let action = NetworkAction {
            name: net.name.value.clone(),
            dns_enabled: net.dns_enabled,
            internal: net.internal,
            driver: net.driver.clone(),
            resolved: ResolvedNetworkRef(i + 1),
        };
        ex.new_step(Action::Network(action), BTreeSet::new());
        i += 1;
    }
}

fn add_volumes(ex: &mut Executor, d: &ParsedDocument)
    requires
        building(*old(ex)),
        old(ex).steps.len() == 1 + d.images.len() + d.networks.len(),
        garbage_laid(*d, old(ex).steps@),
        images_laid(*d, old(ex).steps@, d.images.len() as int),
        networks_laid(*d, old(ex).steps@, d.networks.len() as int),
        1 + d.images.len() + d.networks.len() + d.volumes.len() < usize::MAX,
    ensures
        building(*final(ex)),
        final(ex).steps.len() == 1 + d.images.len() + d.networks.len() + d.volumes.len(),
        garbage_laid(*d, final(ex).steps@),
        images_laid(*d, final(ex).steps@, d.images.len() as int),
        networks_laid(*d, final(ex).steps@, d.networks.len() as int),
        volumes_laid(*d, final(ex).steps@, d.volumes.len() as int),
{
    let mut i: usize = 0;
    while i < d.volumes.len()
        invariant
            i <= d.volumes.len(),
            1 + d.images.len() + d.networks.len() + d.volumes.len() < usize::MAX,
            building(*ex),
            ex.steps.len() == 1 + d.images.len() + d.networks.len() + i,
            garbage_laid(*d, ex.steps@),
            images_laid(*d, ex.steps@, d.images.len() as int),
            networks_laid(*d, ex.steps@, d.networks.len() as int),
            volumes_laid(*d, ex.steps@, i as int),
        decreases d.volumes.len() - i,
    {
        let vol = &d.volumes[i];
        let action = VolumeAction {
            name: vol.name.value.clone(),
            driver: vol.driver.clone(),
            resolved: ResolvedVolumeRef(i + 1),
        };
        ex.new_step(Action::Volume(action), BTreeSet::new());
        i += 1;
    }
}

proof fn lemma_dedup_len(s: Seq<Seq<char>>)
    ensures
        dedup(s).len() <= s.len(),
    decreases s.len(),
{
    if s.len() > 0 {
        lemma_dedup_len(s.drop_last());
    }
}

proof fn lemma_uses_step(cs: Seq<ParsedContainer>, c: int)
    requires
        0 <= c < cs.len(),
    ensures
        secret_uses(cs.subrange(0, c + 1)) == secret_uses(cs.subrange(0, c)) + container_secret_names(cs[c]),
{
    assert(cs.subrange(0, c + 1).drop_last() =~= cs.subrange(0, c));
}

proof fn lemma_uses_mono(cs: Seq<ParsedContainer>, c: int, c2: int)
    requires
        0 <= c <= c2 <= cs.len(),
    ensures
        secret_uses(cs.subrange(0, c)).len() <= secret_uses(cs.subrange(0, c2)).len(),
    decreases c2 - c,
{
    if c < c2 {
        lemma_uses_step(cs, c2 - 1);
        lemma_uses_mono(cs, c, c2 - 1);
    }
}

fn add_secrets(ex: &mut Executor, d: &ParsedDocument) -> (table: Vec<String>)
    requires
        building(*old(ex)),
        old(ex).steps.len() == 1 + d.images.len() + d.networks.len() + d.volumes.len(),
        garbage_laid(*d, old(ex).steps@),
        images_laid(*d, old(ex).steps@, d.images.len() as int),
        networks_laid(*d, old(ex).steps@, d.networks.len() as int),
        volumes_laid(*d, old(ex).steps@, d.volumes.len() as int),
        1 + d.images.len() + d.networks.len() + d.volumes.len() + secret_uses(d.containers@).len()
            < usize::MAX,
    ensures
        building(*final(ex)),
        string_views(table@) == secret_names(*d),
        final(ex).steps.len() == 1 + d.images.len() + d.networks.len() + d.volumes.len()
            + secret_names(*d).len(),
        garbage_laid(*d, final(ex).steps@),
        images_laid(*d, final(ex).steps@, d.images.len() as int),
        networks_laid(*d, final(ex).steps@, d.networks.len() as int),
        volumes_laid(*d, final(ex).steps@, d.volumes.len() as int),
        secrets_laid(*d, final(ex).steps@, secret_names(*d), secret_names(*d).len() as int),
{
    let ghost cs = d.containers@;
    let ghost base = 1 + d.images.len() + d.networks.len() + d.volumes.len();
    let mut table: Vec<String> = Vec::new();
    let mut c: usize = 0;
    proof {
        assert(cs.subrange(0, 0) =~= Seq::<ParsedContainer>::empty());
    }
    while c < d.containers.len()
        invariant
            cs == d.containers@,
            c <= cs.len(),
            base == 1 + d.images.len() + d.networks.len() + d.volumes.len(),
            base + secret_uses(cs).len() < usize::MAX,
            building(*ex),
            string_views(table@) == dedup(secret_uses(cs.subrange(0, c as int))),
            ex.steps.len() == base + table.len(),
            garbage_laid(*d, ex.steps@),
            images_laid(*d, ex.steps@, d.images.len() as int),
            networks_laid(*d, ex.steps@, d.networks.len() as int),
            volumes_laid(*d, ex.steps@, d.volumes.len() as int),
            secrets_laid(*d, ex.steps@, string_views(table@), table.len() as int),
        decreases cs.len() - c,
    {
        let ct = &d.containers[c];
        let ghost pre = secret_uses(cs.subrange(0, c as int));
        let ghost names = container_secret_names(cs[c as int]);
        let mut k: usize = 0;
        proof {
            assert(pre + names.subrange(0, 0) =~= pre);
        }
        while k < ct.secrets.len()
            invariant
                cs == d.containers@,
                c < cs.len(),
                *ct == cs[c as int],
                k <= ct.secrets.len(),
                names == container_secret_names(cs[c as int]),
                pre == secret_uses(cs.subrange(0, c as int)),
                base == 1 + d.images.len() + d.networks.len() + d.volumes.len(),
                base + secret_uses(cs).len() < usize::MAX,
                building(*ex),
                string_views(table@) == dedup(pre + names.subrange(0, k as int)),
                ex.steps.len() == base + table.len(),
                garbage_laid(*d, ex.steps@),
                images_laid(*d, ex.steps@, d.images.len() as int),
                networks_laid(*d, ex.steps@, d.networks.len() as int),
                volumes_laid(*d, ex.steps@, d.volumes.len() as int),
                secrets_laid(*d, ex.steps@, string_views(table@), table.len() as int),
            decreases ct.secrets.len() - k,
        {
            let name = &ct.secrets[k].name;
            let ghost prefix = pre + names.subrange(0, k as int);
            proof {
                assert(pre + names.subrange(0, k + 1) =~= prefix.push(name.value@));
                assert(prefix.push(name.value@).drop_last() =~= prefix);
                lemma_uses_step(cs, c as int);
                lemma_uses_mono(cs, c as int + 1, cs.len() as int);
                assert(cs.subrange(0, cs.len() as int) =~= cs);
                lemma_dedup_len(prefix);
            }
            let found = position_of(&table, &name.value);
            proof {
                let s2 = prefix.push(name.value@);
                assert(s2.last() == name.value@);
                assert(dedup(s2) == if dedup(prefix).contains(name.value@) {
                    dedup(prefix)
                } else {
                    dedup(prefix).push(name.value@)
                });
                if let Some(i) = found {
                    assert(string_views(table@)[i as int] == name.value@);
                }
            }
            if found.is_none() {
                let r = table.len() + 1;
                let ghost before = table@;
                ex.new_step(
                    Action::Secret(SecretAction { resolved: ResolvedSecretRef(r), name: name.duplicate() }),
                    BTreeSet::new(),
                );
                table.push(name.value.clone());
                proof {
                    assert(string_views(table@) =~= string_views(before).push(name.value@));
                }
            }
            k += 1;
        }
        proof {
            assert(names.subrange(0, names.len() as int) =~= names);
            lemma_uses_step(cs, c as int);
        }
        c += 1;
    }
    proof {
        assert(cs.subrange(0, cs.len() as int) =~= cs);
    }
    table
}

/// The step IDs a container depends on, given the IDs its references were
/// minted with: image `r` is step `r`, network `r` is step `ni + r`, volume
/// `r` is step `ni + nn + r` and secret `r` is step `ni + nn + nv + r`.
pub open spec fn dep_set(
    img: usize,
    nets: Seq<ContainerActionNetwork>,
    mounts: Seq<ContainerActionMount>,
    secrets: Seq<ContainerActionSecret>,
    ni: int,
    nn: int,
    nv: int,
) -> Set<usize> {
    Set::new(
        |p: usize|
            p == img || (exists|k: int| 0 <= k < nets.len() && p == ni + (#[trigger] nets[k]).resolved.0)
                || (exists|k: int| 0 <= k < mounts.len() && p == ni + nn + (#[trigger] mounts[k]).name_ref.0)
                || (exists|k: int|
                0 <= k < secrets.len() && p == ni + nn + nv + (#[trigger] secrets[k]).name_ref.0),
    )
}

pub open spec fn containers_only(steps: Seq<Step>, from: int) -> bool {
    forall|p: int| from <= p < steps.len() ==> (#[trigger] steps[p]).action is Container
}

pub open spec fn refs_in_range(d: ParsedDocument, a: ContainerAction) -> bool {
    &&& 1 <= a.image.0 <= d.images.len()
    &&& forall|k: int| 0 <= k < a.networks.len() ==> 1 <= (#[trigger] a.networks@[k]).resolved.0 <= d.networks.len()
    &&& forall|k: int| 0 <= k < a.mounts.len() ==> 1 <= (#[trigger] a.mounts@[k]).name_ref.0 <= d.volumes.len()
    &&& forall|k: int|
        0 <= k < a.secrets.len() ==> 1 <= (#[trigger] a.secrets@[k]).name_ref.0 <= secret_names(d).len()
}

proof fn lemma_producers(d: ParsedDocument, steps: Seq<Step>, a: ContainerAction)
    requires
        garbage_laid(d, steps),
        images_laid(d, steps, d.images.len() as int),
        networks_laid(d, steps, d.networks.len() as int),
        volumes_laid(d, steps, d.volumes.len() as int),
        secrets_laid(d, steps, secret_names(d), secret_names(d).len() as int),
        steps.len() >= 1 + d.images.len() + d.networks.len() + d.volumes.len() + secret_names(d).len(),
        containers_only(steps, 1 + d.images.len() + d.networks.len() + d.volumes.len() + secret_names(d).len()),
        refs_in_range(d, a),
    ensures
        producers(a, steps) == dep_set(
            a.image.0,
            a.networks@,
            a.mounts@,
            a.secrets@,
            d.images.len() as int,
            d.networks.len() as int,
            d.volumes.len() as int,
        ),
{
    let ni = d.images.len() as int;
    let nn = d.networks.len() as int;
    let nv = d.volumes.len() as int;
    let ns = secret_names(d).len() as int;
    let ds = dep_set(a.image.0, a.networks@, a.mounts@, a.secrets@, ni, nn, nv);
    assert forall|p: usize| producers(a, steps).contains(p) <==> ds.contains(p) by {
        if p as int >= steps.len() {
            if ds.contains(p) {
                if exists|k: int| 0 <= k < a.networks.len() && p == ni + (#[trigger] a.networks@[k]).resolved.0 {
                    let k = choose|k: int| 0 <= k < a.networks.len() && p == ni + (#[trigger] a.networks@[k]).resolved.0;
                    assert(1 <= a.networks@[k].resolved.0 <= nn);
                }
                if exists|k: int| 0 <= k < a.mounts.len() && p == ni + nn + (#[trigger] a.mounts@[k]).name_ref.0 {
                    let k = choose|k: int| 0 <= k < a.mounts.len() && p == ni + nn + (#[trigger] a.mounts@[k]).name_ref.0;
                    assert(1 <= a.mounts@[k].name_ref.0 <= nv);
                }
                if exists|k: int| 0 <= k < a.secrets.len() && p == ni + nn + nv + (#[trigger] a.secrets@[k]).name_ref.0 {
                    let k = choose|k: int| 0 <= k < a.secrets.len() && p == ni + nn + nv + (#[trigger] a.secrets@[k]).name_ref.0;
                    assert(1 <= a.secrets@[k].name_ref.0 <= ns);
                }
            }
        } else if p == 0 {
            assert(!consumes(a, steps[0].action));
        } else if p as int <= ni {
            let i = p - 1;
            assert(steps[1 + i] == steps[p as int]);
            if exists|k: int| 0 <= k < a.networks.len() && p == ni + (#[trigger] a.networks@[k]).resolved.0 {
                let k = choose|k: int| 0 <= k < a.networks.len() && p == ni + (#[trigger] a.networks@[k]).resolved.0;
                assert(1 <= a.networks@[k].resolved.0);
            }
            if exists|k: int| 0 <= k < a.mounts.len() && p == ni + nn + (#[trigger] a.mounts@[k]).name_ref.0 {
                let k = choose|k: int| 0 <= k < a.mounts.len() && p == ni + nn + (#[trigger] a.mounts@[k]).name_ref.0;
                assert(1 <= a.mounts@[k].name_ref.0);
            }
            if exists|k: int| 0 <= k < a.secrets.len() && p == ni + nn + nv + (#[trigger] a.secrets@[k]).name_ref.0 {
                let k = choose|k: int| 0 <= k < a.secrets.len() && p == ni + nn + nv + (#[trigger] a.secrets@[k]).name_ref.0;
                assert(1 <= a.secrets@[k].name_ref.0);
            }
        } else if p as int <= ni + nn {
            let i = p - 1 - ni;
            assert(steps[1 + ni + i] == steps[p as int]);
            match steps[p as int].action {
                Action::Network(na) => {
                    assert(na.resolved.0 == p - ni);
                    if consumes(a, steps[p as int].action) {
                        let k = choose|k: int| 0 <= k < a.networks.len() && #[trigger] a.networks@[k].resolved == na.resolved;
                        assert(p == ni + a.networks@[k].resolved.0);
                    }
                    if exists|k: int| 0 <= k < a.networks.len() && p == ni + (#[trigger] a.networks@[k]).resolved.0 {
                        let k = choose|k: int| 0 <= k < a.networks.len() && p == ni + (#[trigger] a.networks@[k]).resolved.0;
                        assert(a.networks@[k].resolved == na.resolved);
                    }
                },
                _ => {},
            }
            if exists|k: int| 0 <= k < a.mounts.len() && p == ni + nn + (#[trigger] a.mounts@[k]).name_ref.0 {
                let k = choose|k: int| 0 <= k < a.mounts.len() && p == ni + nn + (#[trigger] a.mounts@[k]).name_ref.0;
                assert(1 <= a.mounts@[k].name_ref.0);
            }
            if exists|k: int| 0 <= k < a.secrets.len() && p == ni + nn + nv + (#[trigger] a.secrets@[k]).name_ref.0 {
                let k = choose|k: int| 0 <= k < a.secrets.len() && p == ni + nn + nv + (#[trigger] a.secrets@[k]).name_ref.0;
                assert(1 <= a.secrets@[k].name_ref.0);
            }
        } else if p as int <= ni + nn + nv {
            let i = p - 1 - ni - nn;
            assert(steps[1 + ni + nn + i] == steps[p as int]);
            match steps[p as int].action {
                Action::Volume(va) => {
                    assert(va.resolved.0 == p - ni - nn);
                    if consumes(a, steps[p as int].action) {
                        let k = choose|k: int| 0 <= k < a.mounts.len() && #[trigger] a.mounts@[k].name_ref == va.resolved;
                        assert(p == ni + nn + a.mounts@[k].name_ref.0);
                    }
                    if exists|k: int| 0 <= k < a.mounts.len() && p == ni + nn + (#[trigger] a.mounts@[k]).name_ref.0 {
                        let k = choose|k: int| 0 <= k < a.mounts.len() && p == ni + nn + (#[trigger] a.mounts@[k]).name_ref.0;
                        assert(a.mounts@[k].name_ref == va.resolved);
                    }
                },
                _ => {},
            }
            if exists|k: int| 0 <= k < a.networks.len() && p == ni + (#[trigger] a.networks@[k]).resolved.0 {
                let k = choose|k: int| 0 <= k < a.networks.len() && p == ni + (#[trigger] a.networks@[k]).resolved.0;
                assert(a.networks@[k].resolved.0 <= nn);
            }
            if exists|k: int| 0 <= k < a.secrets.len() && p == ni + nn + nv + (#[trigger] a.secrets@[k]).name_ref.0 {
                let k = choose|k: int| 0 <= k < a.secrets.len() && p == ni + nn + nv + (#[trigger] a.secrets@[k]).name_ref.0;
                assert(1 <= a.secrets@[k].name_ref.0);
            }
        } else if p as int <= ni + nn + nv + ns {
            let i = p - 1 - ni - nn - nv;
            assert(steps[1 + ni + nn + nv + i] == steps[p as int]);
            match steps[p as int].action {
                Action::Secret(sa) => {
                    assert(sa.resolved.0 == p - ni - nn - nv);
                    if consumes(a, steps[p as int].action) {
                        let k = choose|k: int| 0 <= k < a.secrets.len() && #[trigger] a.secrets@[k].name_ref == sa.resolved;
                        assert(p == ni + nn + nv + a.secrets@[k].name_ref.0);
                    }
                    if exists|k: int| 0 <= k < a.secrets.len() && p == ni + nn + nv + (#[trigger] a.secrets@[k]).name_ref.0 {
                        let k = choose|k: int| 0 <= k < a.secrets.len() && p == ni + nn + nv + (#[trigger] a.secrets@[k]).name_ref.0;
                        assert(a.secrets@[k].name_ref == sa.resolved);
                    }
                },
                _ => {},
            }
            if exists|k: int| 0 <= k < a.networks.len() && p == ni + (#[trigger] a.networks@[k]).resolved.0 {
                let k = choose|k: int| 0 <= k < a.networks.len() && p == ni + (#[trigger] a.networks@[k]).resolved.0;
                assert(a.networks@[k].resolved.0 <= nn);
            }
            if exists|k: int| 0 <= k < a.mounts.len() && p == ni + nn + (#[trigger] a.mounts@[k]).name_ref.0 {
                let k = choose|k: int| 0 <= k < a.mounts.len() && p == ni + nn + (#[trigger] a.mounts@[k]).name_ref.0;
                assert(a.mounts@[k].name_ref.0 <= nv);
            }
        } else {
            assert(steps[p as int].action is Container);
            if exists|k: int| 0 <= k < a.networks.len() && p == ni + (#[trigger] a.networks@[k]).resolved.0 {
                let k = choose|k: int| 0 <= k < a.networks.len() && p == ni + (#[trigger] a.networks@[k]).resolved.0;
                assert(a.networks@[k].resolved.0 <= nn);
            }
            if exists|k: int| 0 <= k < a.mounts.len() && p == ni + nn + (#[trigger] a.mounts@[k]).name_ref.0 {
                let k = choose|k: int| 0 <= k < a.mounts.len() && p == ni + nn + (#[trigger] a.mounts@[k]).name_ref.0;
                assert(a.mounts@[k].name_ref.0 <= nv);
            }
            if exists|k: int| 0 <= k < a.secrets.len() && p == ni + nn + nv + (#[trigger] a.secrets@[k]).name_ref.0 {
                let k = choose|k: int| 0 <= k < a.secrets.len() && p == ni + nn + nv + (#[trigger] a.secrets@[k]).name_ref.0;
                assert(a.secrets@[k].name_ref.0 <= ns);
            }
        }
    }
    assert(producers(a, steps) =~= ds);
}

proof fn lemma_producers_push(a: ContainerAction, steps: Seq<Step>, x: Step)
    requires
        x.action is Container,
    ensures
        producers(a, steps.push(x)) == producers(a, steps),
{
    assert(producers(a, steps.push(x)) =~= producers(a, steps)) by {
        assert forall|p: usize| producers(a, steps.push(x)).contains(p) implies producers(a, steps).contains(p) by {
            assert(p != steps.len());
            assert(steps.push(x)[p as int] == steps[p as int]);
        }
        assert forall|p: usize| producers(a, steps).contains(p) implies producers(a, steps.push(x)).contains(p) by {
            assert(steps.push(x)[p as int] == steps[p as int]);
        }
    }
}

proof fn lemma_uses_contains(cs: Seq<ParsedContainer>, c: int, k: int)
    requires
        0 <= c < cs.len(),
        0 <= k < cs[c].secrets.len(),
    ensures
        secret_uses(cs).contains(container_secret_names(cs[c])[k]),
    decreases cs.len(),
{
    let x = container_secret_names(cs[c])[k];
    if c == cs.len() - 1 {
        let pre = secret_uses(cs.drop_last());
        assert((pre + container_secret_names(cs.last()))[pre.len() + k] == x);
    } else {
        assert(cs.drop_last()[c] == cs[c]);
        lemma_uses_contains(cs.drop_last(), c, k);
        let pre = secret_uses(cs.drop_last());
        let i = choose|i: int| 0 <= i < pre.len() && pre[i] == x;
        assert((pre + container_secret_names(cs.last()))[i] == x);
    }
}

proof fn lemma_dedup_contains(s: Seq<Seq<char>>, x: Seq<char>)
    requires
        s.contains(x),
    ensures
        dedup(s).contains(x),
    decreases s.len(),
{
    let d = dedup(s.drop_last());
    if s.last() == x {
        if !d.contains(x) {
            assert(d.push(x)[d.len() as int] == x);
        }
    } else {
        let i = choose|i: int| 0 <= i < s.len() && s[i] == x;
        assert(s.drop_last()[i] == x);
        lemma_dedup_contains(s.drop_last(), x);
        if !d.contains(s.last()) {
            let j = choose|j: int| 0 <= j < d.len() && d[j] == x;
            assert(d.push(s.last())[j] == x);
        }
    }
}

fn deps_of(a: &ContainerAction, ni: usize, nn: usize, nv: usize, ns: usize) -> (deps: BTreeSet<usize>)
    requires
        ni + nn + nv + ns < usize::MAX,
        1 <= a.image.0 <= ni,
        forall|k: int| 0 <= k < a.networks.len() ==> 1 <= (#[trigger] a.networks@[k]).resolved.0 <= nn,
        forall|k: int| 0 <= k < a.mounts.len() ==> 1 <= (#[trigger] a.mounts@[k]).name_ref.0 <= nv,
        forall|k: int| 0 <= k < a.secrets.len() ==> 1 <= (#[trigger] a.secrets@[k]).name_ref.0 <= ns,
    ensures
        deps@ == dep_set(a.image.0, a.networks@, a.mounts@, a.secrets@, ni as int, nn as int, nv as int),
        forall|p: usize| deps@.contains(p) ==> 1 <= p <= ni + nn + nv + ns,
{
    let ghost nets = a.networks@;
    let ghost mounts = a.mounts@;
    let ghost secrets = a.secrets@;
    let ghost e1 = Seq::<ContainerActionMount>::empty();
    let ghost e2 = Seq::<ContainerActionSecret>::empty();
    let mut deps: BTreeSet<usize> = BTreeSet::new();
    deps.insert(a.image.0);
    let mut k: usize = 0;
    assert(deps@ =~= dep_set(a.image.0, nets.subrange(0, 0), e1, e2, ni as int, nn as int, nv as int));
    while k < a.networks.len()
        invariant
            k <= nets.len(),
            nets == a.networks@,
            ni + nn + nv + ns < usize::MAX,
            1 <= a.image.0 <= ni,
            forall|j: int| 0 <= j < nets.len() ==> 1 <= (#[trigger] nets[j]).resolved.0 <= nn,
            deps@ == dep_set(a.image.0, nets.subrange(0, k as int), e1, e2, ni as int, nn as int, nv as int),
        decreases nets.len() - k,
    {
        let ghost before = deps@;
        deps.insert(ni + a.networks[k].resolved.0);
        proof {
            let s1 = nets.subrange(0, k + 1);
            let s0 = nets.subrange(0, k as int);
            assert forall|p: usize| dep_set(a.image.0, s1, e1, e2, ni as int, nn as int, nv as int).contains(p)
                <==> before.insert((ni + nets[k as int].resolved.0) as usize).contains(p) by {
                if exists|j: int| 0 <= j < s1.len() && p == ni + (#[trigger] s1[j]).resolved.0 {
                    let j = choose|j: int| 0 <= j < s1.len() && p == ni + (#[trigger] s1[j]).resolved.0;
                    if j < k {
                        assert(s0[j] == s1[j]);
                    }
                }
                if exists|j: int| 0 <= j < s0.len() && p == ni + (#[trigger] s0[j]).resolved.0 {
                    let j = choose|j: int| 0 <= j < s0.len() && p == ni + (#[trigger] s0[j]).resolved.0;
                    assert(s0[j] == s1[j]);
                }
                if p == ni + nets[k as int].resolved.0 {
                    assert(s1[k as int] == nets[k as int]);
                }
            }
            assert(deps@ =~= dep_set(a.image.0, s1, e1, e2, ni as int, nn as int, nv as int));
        }
        k += 1;
    }
    assert(nets.subrange(0, nets.len() as int) =~= nets);
    let mut k: usize = 0;
    while k < a.mounts.len()
        invariant
            k <= mounts.len(),
            mounts == a.mounts@,
            ni + nn + nv + ns < usize::MAX,
            forall|j: int| 0 <= j < mounts.len() ==> 1 <= (#[trigger] mounts[j]).name_ref.0 <= nv,
            deps@ == dep_set(a.image.0, nets, mounts.subrange(0, k as int), e2, ni as int, nn as int, nv as int),
        decreases mounts.len() - k,
    {
        let ghost before = deps@;
        deps.insert(ni + nn + a.mounts[k].name_ref.0);
        proof {
            let s1 = mounts.subrange(0, k + 1);
            let s0 = mounts.subrange(0, k as int);
            assert forall|p: usize| dep_set(a.image.0, nets, s1, e2, ni as int, nn as int, nv as int).contains(p)
                <==> before.insert((ni + nn + mounts[k as int].name_ref.0) as usize).contains(p) by {
                if exists|j: int| 0 <= j < s1.len() && p == ni + nn + (#[trigger] s1[j]).name_ref.0 {
                    let j = choose|j: int| 0 <= j < s1.len() && p == ni + nn + (#[trigger] s1[j]).name_ref.0;
                    if j < k {
                        assert(s0[j] == s1[j]);
                    }
                }
                if exists|j: int| 0 <= j < s0.len() && p == ni + nn + (#[trigger] s0[j]).name_ref.0 {
                    let j = choose|j: int| 0 <= j < s0.len() && p == ni + nn + (#[trigger] s0[j]).name_ref.0;
                    assert(s0[j] == s1[j]);
                }
                if p == ni + nn + mounts[k as int].name_ref.0 {
                    assert(s1[k as int] == mounts[k as int]);
                }
            }
            assert(deps@ =~= dep_set(a.image.0, nets, s1, e2, ni as int, nn as int, nv as int));
        }
        k += 1;
    }
    assert(mounts.subrange(0, mounts.len() as int) =~= mounts);
    let mut k: usize = 0;
    while k < a.secrets.len()
        invariant
            k <= secrets.len(),
            secrets == a.secrets@,
            ni + nn + nv + ns < usize::MAX,
            forall|j: int| 0 <= j < secrets.len() ==> 1 <= (#[trigger] secrets[j]).name_ref.0 <= ns,
            deps@ == dep_set(a.image.0, nets, mounts, secrets.subrange(0, k as int), ni as int, nn as int, nv as int),
        decreases secrets.len() - k,
    {
        let ghost before = deps@;
        deps.insert(ni + nn + nv + a.secrets[k].name_ref.0);
        proof {
            let s1 = secrets.subrange(0, k + 1);
            let s0 = secrets.subrange(0, k as int);
            assert forall|p: usize| dep_set(a.image.0, nets, mounts, s1, ni as int, nn as int, nv as int).contains(p)
                <==> before.insert((ni + nn + nv + secrets[k as int].name_ref.0) as usize).contains(p) by {
                if exists|j: int| 0 <= j < s1.len() && p == ni + nn + nv + (#[trigger] s1[j]).name_ref.0 {
                    let j = choose|j: int| 0 <= j < s1.len() && p == ni + nn + nv + (#[trigger] s1[j]).name_ref.0;
                    if j < k {
                        assert(s0[j] == s1[j]);
                    }
                }
                if exists|j: int| 0 <= j < s0.len() && p == ni + nn + nv + (#[trigger] s0[j]).name_ref.0 {
                    let j = choose|j: int| 0 <= j < s0.len() && p == ni + nn + nv + (#[trigger] s0[j]).name_ref.0;
                    assert(s0[j] == s1[j]);
                }
                if p == ni + nn + nv + secrets[k as int].name_ref.0 {
                    assert(s1[k as int] == secrets[k as int]);
                }
            }
            assert(deps@ =~= dep_set(a.image.0, nets, mounts, s1, ni as int, nn as int, nv as int));
        }
        k += 1;
    }
    assert(secrets.subrange(0, secrets.len() as int) =~= secrets);
    proof {
        assert forall|p: usize| deps@.contains(p) implies 1 <= p <= ni + nn + nv + ns by {
            if exists|j: int| 0 <= j < nets.len() && p == ni + (#[trigger] nets[j]).resolved.0 {
                let j = choose|j: int| 0 <= j < nets.len() && p == ni + (#[trigger] nets[j]).resolved.0;
                assert(1 <= nets[j].resolved.0 <= nn);
            }
            if exists|j: int| 0 <= j < mounts.len() && p == ni + nn + (#[trigger] mounts[j]).name_ref.0 {
                let j = choose|j: int| 0 <= j < mounts.len() && p == ni + nn + (#[trigger] mounts[j]).name_ref.0;
                assert(1 <= mounts[j].name_ref.0 <= nv);
            }
            if exists|j: int| 0 <= j < secrets.len() && p == ni + nn + nv + (#[trigger] secrets[j]).name_ref.0 {
                let j = choose|j: int| 0 <= j < secrets.len() && p == ni + nn + nv + (#[trigger] secrets[j]).name_ref.0;
                assert(1 <= secrets[j].name_ref.0 <= ns);
            }
        }
    }
    deps
}

fn resolve_networks(d: &ParsedDocument, ct: &ParsedContainer, names: &Vec<String>) -> (r: Result<
    Vec<ContainerActionNetwork>,
    PlanError,
>)
    requires
        string_views(names@) == network_names(*d),
    ensures
        r is Ok <==> forall|k: int|
            0 <= k < ct.networks.len() ==> network_names(*d).contains(#[trigger] ct.networks@[k].name.value@),
        match r {
            Ok(v) => v.len() == ct.networks.len() && forall|k: int|
                0 <= k < v.len() ==> {
                    let q = (#[trigger] v@[k]).resolved.0;
                    &&& 1 <= q <= d.networks.len()
                    &&& network_names(*d)[q - 1] == ct.networks@[k].name.value@
                    &&& string_views(v@[k].aliases@) == string_views(ct.networks@[k].aliases@)
                },
            Err(e) => match e {
                PlanError::UnknownThing(x) => x.thing == EntityKind::Network && !network_names(*d).contains(
                    x.name@,
                ) && exists|k: int| 0 <= k < ct.networks.len() && ct.networks@[k].name.value@ == x.name@,
                _ => false,
            },
        },
{
    let mut v: Vec<ContainerActionNetwork> = Vec::new();
    let mut k: usize = 0;
    while k < ct.networks.len()
        invariant
            k <= ct.networks.len(),
            string_views(names@) == network_names(*d),
            v.len() == k,
            forall|j: int| 0 <= j < k ==> network_names(*d).contains(#[trigger] ct.networks@[j].name.value@),
            forall|j: int|
                0 <= j < v.len() ==> {
                    let q = (#[trigger] v@[j]).resolved.0;
                    &&& 1 <= q <= d.networks.len()
                    &&& network_names(*d)[q - 1] == ct.networks@[j].name.value@
                    &&& string_views(v@[j].aliases@) == string_views(ct.networks@[j].aliases@)
                },
        decreases ct.networks.len() - k,
    {
        let net = &ct.networks[k];
        match position_of(names, &net.name.value) {
            Some(i) => {
                proof {
                    assert(string_views(names@)[i as int] == net.name.value@);
                    assert(string_views(names@).len() == names.len());
                    assert(network_names(*d).len() == d.networks.len());
                }
                v.push(ContainerActionNetwork {
                    resolved: ResolvedNetworkRef(i + 1),
                    aliases: copy_strings(&net.aliases),
                });
            },
            None => {
                return Err(PlanError::UnknownThing(UnknownThing {
                    name: net.name.value.clone(),
                    span: net.name.span.duplicate(),
                    thing: EntityKind::Network,
                }));
            },
        }
        k += 1;
    }
    Ok(v)
}

fn resolve_mounts(d: &ParsedDocument, ct: &ParsedContainer, names: &Vec<String>) -> (r: Result<
    Vec<ContainerActionMount>,
    PlanError,
>)
    requires
        string_views(names@) == volume_names(*d),
    ensures
        r is Ok <==> forall|k: int|
            0 <= k < ct.mounts.len() ==> volume_names(*d).contains(#[trigger] ct.mounts@[k].name.value@),
        match r {
            Ok(v) => v.len() == ct.mounts.len() && forall|k: int|
                0 <= k < v.len() ==> {
                    let q = (#[trigger] v@[k]).name_ref.0;
                    &&& 1 <= q <= d.volumes.len()
                    &&& volume_names(*d)[q - 1] == ct.mounts@[k].name.value@
                    &&& v@[k].destination@ == ct.mounts@[k].destination@
                    &&& v@[k].kind == ct.mounts@[k].kind
                },
            Err(e) => match e {
                PlanError::UnknownThing(x) => x.thing == EntityKind::Volume && !volume_names(*d).contains(
                    x.name@,
                ) && exists|k: int| 0 <= k < ct.mounts.len() && ct.mounts@[k].name.value@ == x.name@,
                _ => false,
            },
        },
{
    let mut v: Vec<ContainerActionMount> = Vec::new();
    let mut k: usize = 0;
    while k < ct.mounts.len()
        invariant
            k <= ct.mounts.len(),
            string_views(names@) == volume_names(*d),
            v.len() == k,
            forall|j: int| 0 <= j < k ==> volume_names(*d).contains(#[trigger] ct.mounts@[j].name.value@),
            forall|j: int|
                0 <= j < v.len() ==> {
                    let q = (#[trigger] v@[j]).name_ref.0;
                    &&& 1 <= q <= d.volumes.len()
                    &&& volume_names(*d)[q - 1] == ct.mounts@[j].name.value@
                    &&& v@[j].destination@ == ct.mounts@[j].destination@
                    &&& v@[j].kind == ct.mounts@[j].kind
                },
        decreases ct.mounts.len() - k,
    {
        let m = &ct.mounts[k];
        match position_of(names, &m.name.value) {
            Some(i) => {
                proof {
                    assert(string_views(names@)[i as int] == m.name.value@);
                    assert(string_views(names@).len() == names.len());
                    assert(volume_names(*d).len() == d.volumes.len());
                }
                v.push(ContainerActionMount {
                    kind: m.kind,
                    name_ref: ResolvedVolumeRef(i + 1),
                    destination: m.destination.clone(),
                });
            },
            None => {
                return Err(PlanError::UnknownThing(UnknownThing {
                    name: m.name.value.clone(),
                    span: m.name.span.duplicate(),
                    thing: EntityKind::Volume,
                }));
            },
        }
        k += 1;
    }
    Ok(v)
}

fn resolve_secrets(d: &ParsedDocument, c: usize, table: &Vec<String>) -> (v: Vec<ContainerActionSecret>)
    requires
        c < d.containers.len(),
        string_views(table@) == secret_names(*d),
    ensures
        v.len() == d.containers@[c as int].secrets.len(),
        forall|k: int|
            0 <= k < v.len() ==> {
                let q = (#[trigger] v@[k]).name_ref.0;
                let sc = d.containers@[c as int].secrets@[k];
                &&& 1 <= q <= secret_names(*d).len()
                &&& secret_names(*d)[q - 1] == sc.name.value@
                &&& v@[k].target@ == match sc.target {
                    Some(t) => t@,
                    None => sc.name.value@,
                }
            },
{
    let ct = &d.containers[c];
    let mut v: Vec<ContainerActionSecret> = Vec::new();
    let mut k: usize = 0;
    while k < ct.secrets.len()
        invariant
            c < d.containers.len(),
            *ct == d.containers@[c as int],
            k <= ct.secrets.len(),
            string_views(table@) == secret_names(*d),
            v.len() == k,
            forall|j: int|
                0 <= j < v.len() ==> {
                    let q = (#[trigger] v@[j]).name_ref.0;
                    let sc = ct.secrets@[j];
                    &&& 1 <= q <= secret_names(*d).len()
                    &&& secret_names(*d)[q - 1] == sc.name.value@
                    &&& v@[j].target@ == match sc.target {
                        Some(t) => t@,
                        None => sc.name.value@,
                    }
                },
        decreases ct.secrets.len() - k,
    {
        let sc = &ct.secrets[k];
        proof {
            lemma_uses_contains(d.containers@, c as int, k as int);
            assert(container_secret_names(*ct)[k as int] == sc.name.value@);
            lemma_dedup_contains(secret_uses(d.containers@), sc.name.value@);
        }
        let i = match position_of(table, &sc.name.value) {
            Some(i) => i,
            None => {
                proof {
                    assert(false);
                }
                0
            },
        };
        proof {
            assert(string_views(table@)[i as int] == sc.name.value@);
        }
        let target = match &sc.target {
            Some(t) => t.clone(),
            None => sc.name.value.clone(),
        };
        v.push(ContainerActionSecret { name_ref: ResolvedSecretRef(i + 1), target });
        k += 1;
    }
    v
}

fn resolve_ports(ct: &ParsedContainer) -> (v: Vec<ContainerActionPort>)
    ensures
        v.len() == ct.ports.len(),
        forall|k: int| 0 <= k < v.len() ==> v@[k] == port_of(#[trigger] ct.ports@[k]),
{
    let mut v: Vec<ContainerActionPort> = Vec::new();
    let mut k: usize = 0;
    while k < ct.ports.len()
        invariant
            k <= ct.ports.len(),
            v.len() == k,
            forall|j: int| 0 <= j < v.len() ==> v@[j] == port_of(#[trigger] ct.ports@[j]),
        decreases ct.ports.len() - k,
    {
        let p = match ct.ports[k] {
            ParsedContainerPort::Shorthand(n) => ContainerActionPort {
                container: n,
                host: n,
                protocol: ParsedProtocol::Tcp,
            },
            ParsedContainerPort::Explicit(e) => ContainerActionPort {
                container: e.container,
                host: e.host,
                protocol: e.protocol,
            },
        };
        v.push(p);
        k += 1;
    }
    v
}

fn resolve_injects(ct: &ParsedContainer) -> (r: Result<Vec<ContainerActionInject>, PlanError>)
    ensures
        r is Ok <==> inject_paths(*ct).no_duplicates(),
        match r {
            Ok(v) => v.len() == ct.injects.len() && forall|k: int|
                0 <= k < v.len() ==> (#[trigger] v@[k]).at@ == ct.injects@[k].at.value@
                    && v@[k].path@ == ct.injects@[k].path@,
            Err(e) => e is DuplicateInjectPath,
        },
{
    let mut paths: Vec<String> = Vec::new();
    let mut v: Vec<ContainerActionInject> = Vec::new();
    let mut k: usize = 0;
    while k < ct.injects.len()
        invariant
            k <= ct.injects.len(),
            v.len() == k,
            string_views(paths@) == inject_paths(*ct).subrange(0, k as int),
            forall|j: int|
                0 <= j < v.len() ==> (#[trigger] v@[j]).at@ == ct.injects@[j].at.value@
                    && v@[j].path@ == ct.injects@[j].path@,
        decreases ct.injects.len() - k,
    {
        let inj = &ct.injects[k];
        let ghost before = paths@;
        paths.push(inj.at.value.clone());
        proof {
            assert(string_views(paths@) =~= string_views(before).push(inj.at.value@));
            assert(inject_paths(*ct).subrange(0, k + 1) =~= inject_paths(*ct).subrange(0, k as int).push(
                inj.at.value@,
            ));
        }
        v.push(ContainerActionInject { at: inj.at.value.clone(), path: inj.path.clone() });
        k += 1;
    }
    assert(inject_paths(*ct).subrange(0, ct.injects.len() as int) =~= inject_paths(*ct));
    match find_duplicate(&paths) {
        Some((i, j)) => {
            proof {
                assert(inject_paths(*ct)[i as int] == inject_paths(*ct)[j as int]);
            }
            Err(PlanError::DuplicateInjectPath(DuplicateInjectPath {
                first: ct.injects[i].at.span.duplicate(),
                second: ct.injects[j].at.span.duplicate(),
            }))
        },
        None => Ok(v),
    }
}

fn image_name_list(d: &ParsedDocument) -> (names: Vec<String>)
    ensures
        string_views(names@) == image_names(*d),
{
    let mut names: Vec<String> = Vec::new();
    let mut i: usize = 0;
    while i < d.images.len()
        invariant
            i <= d.images.len(),
            string_views(names@) == image_names(*d).subrange(0, i as int),
        decreases d.images.len() - i,
    {
        let ghost before = names@;
        names.push(d.images[i].name.value.clone());
        proof {
            assert(string_views(names@) =~= string_views(before).push(names@[i as int]@));
            assert(image_names(*d).subrange(0, i + 1) =~= image_names(*d).subrange(0, i as int).push(
                d.images@[i as int].name.value@,
            ));
        }
        i += 1;
    }
    assert(image_names(*d).subrange(0, d.images.len() as int) =~= image_names(*d));
    names
}

fn network_name_list(d: &ParsedDocument) -> (names: Vec<String>)
    ensures
        string_views(names@) == network_names(*d),
{
    let mut names: Vec<String> = Vec::new();
    let mut i: usize = 0;
    while i < d.networks.len()
        invariant
            i <= d.networks.len(),
            string_views(names@) == network_names(*d).subrange(0, i as int),
        decreases d.networks.len() - i,
    {
        let ghost before = names@;
        names.push(d.networks[i].name.value.clone());
        proof {
            assert(string_views(names@) =~= string_views(before).push(names@[i as int]@));
            assert(network_names(*d).subrange(0, i + 1) =~= network_names(*d).subrange(0, i as int).push(
                d.networks@[i as int].name.value@,
            ));
        }
        i += 1;
    }
    assert(network_names(*d).subrange(0, d.networks.len() as int) =~= network_names(*d));
    names
}

fn volume_name_list(d: &ParsedDocument) -> (names: Vec<String>)
    ensures
        string_views(names@) == volume_names(*d),
{
    let mut names: Vec<String> = Vec::new();
    let mut i: usize = 0;
    while i < d.volumes.len()
        invariant
            i <= d.volumes.len(),
            string_views(names@) == volume_names(*d).subrange(0, i as int),
        decreases d.volumes.len() - i,
    {
        let ghost before = names@;
        names.push(d.volumes[i].name.value.clone());
        proof {
            assert(string_views(names@) =~= string_views(before).push(names@[i as int]@));
            assert(volume_names(*d).subrange(0, i + 1) =~= volume_names(*d).subrange(0, i as int).push(
                d.volumes@[i as int].name.value@,
            ));
        }
        i += 1;
    }
    assert(volume_names(*d).subrange(0, d.volumes.len() as int) =~= volume_names(*d));
    names
}

fn container_name_list(d: &ParsedDocument) -> (names: Vec<String>)
    ensures
        string_views(names@) == container_names(*d),
{
    let mut names: Vec<String> = Vec::new();
    let mut i: usize = 0;
    while i < d.containers.len()
        invariant
            i <= d.containers.len(),
            string_views(names@) == container_names(*d).subrange(0, i as int),
        decreases d.containers.len() - i,
    {
        let ghost before = names@;
        names.push(d.containers[i].name.value.clone());
        proof {
            assert(string_views(names@) =~= string_views(before).push(names@[i as int]@));
            assert(container_names(*d).subrange(0, i + 1) =~= container_names(*d).subrange(0, i as int).push(
                d.containers@[i as int].name.value@,
            ));
        }
        i += 1;
    }
    assert(container_names(*d).subrange(0, d.containers.len() as int) =~= container_names(*d));
    names
}

fn resolve_container(
    d: &ParsedDocument,
    c: usize,
    images: &Vec<String>,
    networks: &Vec<String>,
    volumes: &Vec<String>,
    secrets: &Vec<String>,
) -> (r: Result<ContainerAction, PlanError>)
    requires
        c < d.containers.len(),
        string_views(images@) == image_names(*d),
        string_views(networks@) == network_names(*d),
        string_views(volumes@) == volume_names(*d),
        string_views(secrets@) == secret_names(*d),
    ensures
        r is Ok <==> container_ok(*d, d.containers@[c as int]),
        match r {
            Ok(a) => action_of(*d, d.containers@[c as int], a) && refs_in_range(*d, a),
            Err(e) => container_error(*d, c as int, e),
        },
{
    let ct = &d.containers[c];
    let injects = match resolve_injects(ct) {
        Ok(v) => v,
        Err(e) => {
            return Err(e);
        },
    };
    let image = match position_of(images, &ct.image.value) {
        Some(i) => {
            proof {
                assert(string_views(images@)[i as int] == ct.image.value@);
                assert(string_views(images@).len() == images.len());
                assert(image_names(*d).len() == d.images.len());
            }
            ResolvedImageRef(i + 1)
        },
        None => {
            return Err(PlanError::UnknownThing(UnknownThing {
                name: ct.image.value.clone(),
                span: ct.image.span.duplicate(),
                thing: EntityKind::Image,
            }));
        },
    };
    let nets = match resolve_networks(d, ct, networks) {
        Ok(v) => v,
        Err(e) => {
            return Err(e);
        },
    };
    let mounts = match resolve_mounts(d, ct, volumes) {
        Ok(v) => v,
        Err(e) => {
            return Err(e);
        },
    };
    let secs = resolve_secrets(d, c, secrets);
    let ports = resolve_ports(ct);
    let command = match &ct.command {
        None => None,
        Some(cmd) => match split_command(&cmd.value) {
            Some(words) => Some(words),
            None => {
                return Err(PlanError::MalformedCommand(MalformedCommand { here: cmd.span.duplicate() }));
            },
        },
    };
    let a = ContainerAction {
        name: ct.name.value.clone(),
        command,
        image,
        ports,
        injects,
        networks: nets,
        mounts,
        secrets: secs,
    };
    Ok(a)
}

/// Turns a document into a plan: a garbage step, a step per image, network
/// and volume, one per distinct secret that containers reference, then a
/// step per container whose dependencies are exactly the steps producing
/// the references it reads. Fails when a name repeats within a kind, a
/// container repeats an inject destination, references an undeclared
/// image, network or volume, or has a command that cannot be split.
pub fn prepare(document: &ParsedDocument) -> (r: Result<Executor, PlanError>)
    requires
        1 + document.images.len() + document.networks.len() + document.volumes.len()
            + secret_uses(document.containers@).len() + document.containers.len() < usize::MAX,
    ensures
        r is Ok <==> document_ok(*document),
        r is Ok ==> building(r->Ok_0),
        r is Ok ==> plan_of(*document, r->Ok_0.steps@),
        r is Err ==> reported_first(*document, r->Err_0),
{
    let d = document;
    let images = image_name_list(d);
    let networks = network_name_list(d);
    let volumes = volume_name_list(d);
    let containers = container_name_list(d);
    proof {
        assert(string_views(images@).len() == images.len());
        assert(string_views(networks@).len() == networks.len());
        assert(string_views(volumes@).len() == volumes.len());
        assert(string_views(containers@).len() == containers.len());
    }
    if let Some((i, j)) = find_duplicate(&images) {
        proof {
            assert(image_names(*d)[i as int] == image_names(*d)[j as int]);
        }
        let err = PlanError::DuplicateName(DuplicateName {
            kind: EntityKind::Image,
            first_name: d.images[i].name.span.duplicate(),
            second_name: d.images[j].name.span.duplicate(),
        });
        proof {
            let names = image_names(*d);
            assert(0 <= i < j < names.len() && names[i as int] == names[j as int]);
            assert(!names.no_duplicates());
            assert(image_spans(*d)[i as int] == d.images@[i as int].name.span@);
            assert(image_spans(*d)[j as int] == d.images@[j as int].name.span@);
            assert(duplicate_error(err, EntityKind::Image, names, image_spans(*d)));
        }
        return Err(err);
    }
    if let Some((i, j)) = find_duplicate(&networks) {
        proof {
            assert(network_names(*d)[i as int] == network_names(*d)[j as int]);
        }
        let err = PlanError::DuplicateName(DuplicateName {
            kind: EntityKind::Network,
            first_name: d.networks[i].name.span.duplicate(),
            second_name: d.networks[j].name.span.duplicate(),
        });
        proof {
            let names = network_names(*d);
            assert(0 <= i < j < names.len() && names[i as int] == names[j as int]);
            assert(!names.no_duplicates());
            assert(network_spans(*d)[i as int] == d.networks@[i as int].name.span@);
            assert(network_spans(*d)[j as int] == d.networks@[j as int].name.span@);
            assert(duplicate_error(err, EntityKind::Network, names, network_spans(*d)));
        }
        return Err(err);
    }
    if let Some((i, j)) = find_duplicate(&volumes) {
        proof {
            assert(volume_names(*d)[i as int] == volume_names(*d)[j as int]);
        }
        let err = PlanError::DuplicateName(DuplicateName {
            kind: EntityKind::Volume,
            first_name: d.volumes[i].name.span.duplicate(),
            second_name: d.volumes[j].name.span.duplicate(),
        });
        proof {
            let names = volume_names(*d);
            assert(0 <= i < j < names.len() && names[i as int] == names[j as int]);
            assert(!names.no_duplicates());
            assert(volume_spans(*d)[i as int] == d.volumes@[i as int].name.span@);
            assert(volume_spans(*d)[j as int] == d.volumes@[j as int].name.span@);
            assert(duplicate_error(err, EntityKind::Volume, names, volume_spans(*d)));
        }
        return Err(err);
    }
    let mut ex = Executor::new();
    add_garbage(&mut ex, d);
    add_images(&mut ex, d);
    add_networks(&mut ex, d);
    add_volumes(&mut ex, d);
    proof {
        lemma_dedup_len(secret_uses(d.containers@));
    }
    let secrets = add_secrets(&mut ex, d);
    let ghost base = 1 + d.images.len() + d.networks.len() + d.volumes.len() + secret_names(*d).len();
    let ni = d.images.len();
    let nn = d.networks.len();
    let nv = d.volumes.len();
    let ns = secrets.len();
    proof {
        assert(string_views(secrets@).len() == secrets.len());
    }
    let mut c: usize = 0;
    while c < d.containers.len()
        invariant
            d == document,
            c <= d.containers.len(),
            base == 1 + d.images.len() + d.networks.len() + d.volumes.len() + secret_names(*d).len(),
            base + d.containers.len() < usize::MAX,
            ni == d.images.len(),
            nn == d.networks.len(),
            nv == d.volumes.len(),
            ns == secret_names(*d).len(),
            string_views(images@) == image_names(*d),
            string_views(networks@) == network_names(*d),
            string_views(volumes@) == volume_names(*d),
            string_views(secrets@) == secret_names(*d),
            image_names(*d).no_duplicates(),
            network_names(*d).no_duplicates(),
            volume_names(*d).no_duplicates(),
            string_views(containers@) == container_names(*d),
            containers.len() == d.containers.len(),
            forall|j: int| 0 <= j < c ==> container_fine(*d, j),
            building(ex),
            ex.steps.len() == base + c,
            garbage_laid(*d, ex.steps@),
            images_laid(*d, ex.steps@, d.images.len() as int),
            networks_laid(*d, ex.steps@, d.networks.len() as int),
            volumes_laid(*d, ex.steps@, d.volumes.len() as int),
            secrets_laid(*d, ex.steps@, secret_names(*d), secret_names(*d).len() as int),
            containers_laid(*d, ex.steps@, c as int),
            containers_only(ex.steps@, base),
        decreases d.containers.len() - c,
    {
        if let Some(j) = earlier_index(&containers, c) {
            let err = PlanError::DuplicateName(DuplicateName {
                kind: EntityKind::Container,
                first_name: d.containers[j].name.span.duplicate(),
                second_name: d.containers[c].name.span.duplicate(),
            });
            proof {
                assert(string_views(containers@)[j as int] == containers@[j as int]@);
                assert(string_views(containers@)[c as int] == containers@[c as int]@);
                assert(container_names(*d)[j as int] == d.containers@[j as int].name.value@);
                assert(container_names(*d)[c as int] == d.containers@[c as int].name.value@);
                assert(d.containers@[j as int].name.value@ == d.containers@[c as int].name.value@);
                assert(container_names(*d)[j as int] == container_names(*d)[c as int]);
                assert(!document_ok(*d));
                let ci = c as int;
                assert(exists|k: int| 0 <= k < ci && d.containers@[k].name.value@ == d.containers@[ci].name.value@);
                assert(err matches PlanError::DuplicateName(x) && x.kind == EntityKind::Container && x.second_name@
                    == d.containers@[ci].name.span@);
                assert(0 <= ci < d.containers.len() && (forall|k: int| 0 <= k < ci ==> container_fine(*d, k)));
                assert(first_container_error(*d, err));
            }
            return Err(err);
        }
        proof {
            assert forall|j: int| 0 <= j < c implies d.containers@[j].name.value@ != d.containers@[c as int].name.value@ by {
                assert(string_views(containers@)[j] == containers@[j]@);
                assert(string_views(containers@)[c as int] == containers@[c as int]@);
                assert(container_names(*d)[j] == d.containers@[j].name.value@);
                assert(container_names(*d)[c as int] == d.containers@[c as int].name.value@);
            }
        }
        let a = match resolve_container(d, c, &images, &networks, &volumes, &secrets) {
            Ok(a) => a,
            Err(err) => {
                proof {
                    assert(!container_ok(*d, d.containers@[c as int]));
                    assert(!document_ok(*d));
                    assert(!(exists|j: int| 0 <= j < c && d.containers@[j].name.value@ == d.containers@[c as int].name.value@));
                    assert(first_container_error(*d, err));
                }
                return Err(err);
            },
        };
        proof {
            assert(container_fine(*d, c as int));
        }
        let deps = deps_of(&a, ni, nn, nv, ns);
        let ghost before = ex.steps@;
        let ghost ga = a;
        ex.new_step(Action::Container(a), deps);
        proof {
            let after = ex.steps@;
            lemma_building_queued(ex);
            assert(containers_only(after, base));
            lemma_producers(*d, after, ga);
            assert forall|i: int| 0 <= i < c + 1 implies match (#[trigger] after[base + i]).action {
                Action::Container(a2) => {
                    &&& action_of(*d, d.containers@[i], a2)
                    &&& after[base + i].depends_on@ == producers(a2, after)
                },
                _ => false,
            } by {
                if i < c {
                    assert(after[base + i] == before[base + i]);
                    match before[base + i].action {
                        Action::Container(a2) => {
                            lemma_producers_push(a2, before, after.last());
                            assert(after =~= before.push(after.last()));
                        },
                        _ => {},
                    }
                }
            }
        }
        c += 1;
    }
    proof {
        lemma_building_queued(ex);
        assert forall|i: int, j: int| 0 <= i < j < container_names(*d).len() implies container_names(*d)[i]
            != container_names(*d)[j] by {
            assert(container_fine(*d, j));
        }
        assert forall|c: int| 0 <= c < d.containers.len() implies container_ok(*d, #[trigger] d.containers@[c]) by {
            assert(container_fine(*d, c));
        }
    }
    Ok(ex)
}

/// When names are distinct within each kind, every reference resolves and
/// every command splits, a document can be planned exactly when no
/// container repeats an inject destination.
pub proof fn lemma_inject_paths_decide(d: ParsedDocument)
    requires
        image_names(d).no_duplicates(),
        network_names(d).no_duplicates(),
        volume_names(d).no_duplicates(),
        container_names(d).no_duplicates(),
        forall|c: int| 0 <= c < d.containers.len() ==> {
            let ct = #[trigger] d.containers@[c];
            &&& image_names(d).contains(ct.image.value@)
            &&& forall|k: int| 0 <= k < ct.networks.len() ==> network_names(d).contains(#[trigger] ct.networks@[k].name.value@)
            &&& forall|k: int| 0 <= k < ct.mounts.len() ==> volume_names(d).contains(#[trigger] ct.mounts@[k].name.value@)
            &&& match ct.command {
                Some(cmd) => shlex_words(cmd.value@) is Some,
                None => true,
            }
        },
    ensures
        document_ok(d) <==> forall|c: int| 0 <= c < d.containers.len() ==> inject_paths(#[trigger] d.containers@[c]).no_duplicates(),
{
}

/// An earlier index holding the same string as index `c`, if any.
fn earlier_index(names: &Vec<String>, c: usize) -> (r: Option<usize>)
    requires
        c < names.len(),
    ensures
        match r {
            Some(j) => j < c && names@[j as int]@ == names@[c as int]@,
            None => forall|j: int| 0 <= j < c ==> names@[j]@ != names@[c as int]@,
        },
{
    let mut j: usize = 0;
    while j < c
        invariant
            j <= c < names.len(),
            forall|k: int| 0 <= k < j ==> names@[k]@ != names@[c as int]@,
        decreases c - j,
    {
        if names[j].eq(&names[c]) {
            return Some(j);
        }
        j += 1;
    }
    None
}

} // verus!
