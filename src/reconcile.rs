use vstd::prelude::*;
use crate::executor::StepOutcome;
use crate::plan::{post_views, NetworkAction, PostAction, PostKind, VolumeAction};
use crate::prepare::string_views;
use vstd::string::StringSliceAdditionalSpecFns;
use vstd::utf8::encode_utf8;

verus! {

/// What to do about a declared image.
pub enum ImagePlan {
    /// A local image matches: use its ID.
    Adopt(String),
    /// Nothing matches: pull the reference.
    Pull,
    /// Nothing matches and the image is marked local: the step fails.
    Missing,
}

/// Decides on an image from the IDs of the runtime's matching images: the
/// first match is adopted; otherwise a non-local image is pulled.
pub fn image_plan(found: &Vec<String>, local: bool) -> (r: ImagePlan)
    ensures
        found.len() > 0 ==> (r matches ImagePlan::Adopt(id) && id@ == found@[0]@),
        found.len() == 0 && local ==> r is Missing,
        found.len() == 0 && !local ==> r is Pull,
{
    if found.len() > 0 {
        ImagePlan::Adopt(found[0].clone())
    } else if local {
        ImagePlan::Missing
    } else {
        ImagePlan::Pull
    }
}

/// Where an image pull stands after one report of the runtime's stream.
pub enum PullProgress {
    Failed(String),
    Resolved(String),
    Continue,
}

/// Reads one pull report: an error aborts, an ID resolves the image, and
/// anything else waits for the next report.
pub fn pull_event(error: Option<String>, id: Option<String>) -> (r: PullProgress)
    ensures
        match error {
            Some(e) => r matches PullProgress::Failed(x) && x@ == e@,
            None => match id {
                Some(i) => r matches PullProgress::Resolved(x) && x@ == i@,
                None => r is Continue,
            },
        },
{
    match error {
        Some(e) => PullProgress::Failed(e),
        None => match id {
            Some(i) => PullProgress::Resolved(i),
            None => PullProgress::Continue,
        },
    }
}

/// The report of a step that resolved its reference and changed nothing.
pub fn resolved_outcome(value: String) -> (r: StepOutcome)
    ensures
        r.resolved matches Some(v) && v@ == value@,
        r.backtrack.len() == 0,
        r.finalize.len() == 0,
        r.failure is None,
{
    StepOutcome { resolved: Some(value), backtrack: Vec::new(), finalize: Vec::new(), failure: None }
}

/// The report of a failed step with the post-actions it had queued.
pub fn failed_outcome(error: String, backtrack: Vec<PostAction>, finalize: Vec<PostAction>) -> (r: StepOutcome)
    ensures
        r.resolved is None,
        r.backtrack@ == backtrack@,
        r.finalize@ == finalize@,
        r.failure matches Some(e) && e@ == error@,
{
    StepOutcome { resolved: None, backtrack, finalize, failure: Some(error) }
}

/// Whether `i` is the position of the last `:` of `b`.
pub open spec fn is_last_colon(b: Seq<u8>, i: int) -> bool {
    0 <= i < b.len() && b[i] == 58u8 && forall|j: int| i < j < b.len() ==> b[j] != 58u8
}

/// Splits an image reference at its last `:` into repository and tag; a
/// reference without `:` is all repository.
pub fn split_reference(reference: &String) -> (r: (String, Option<String>))
    ensures
        match r.1 {
            Some(tag) => exists|i: int|
                is_last_colon(encode_utf8(reference@), i) && encode_utf8(r.0@) == encode_utf8(reference@).subrange(0, i)
                    && encode_utf8(tag@) == encode_utf8(reference@).subrange(i + 1, encode_utf8(reference@).len() as int),
            None => r.0@ == reference@,
        },
        r.1 is None <==> (forall|j: int| 0 <= j < encode_utf8(reference@).len() ==> encode_utf8(reference@)[j] != 58u8),
{
    let s = reference.as_str();
    let b = s.as_bytes();
    assert(b@ == encode_utf8(reference@));
    let mut i: usize = b.len();
    while i > 0
        invariant
            b@ == encode_utf8(reference@),
            b@ == s.spec_bytes(),
            s@ == reference@,
            i <= b.len(),
            forall|j: int| i <= j < b.len() ==> b@[j] != 58u8,
        decreases i,
    {
        if b[i - 1] == 58u8 {
            let at = i - 1;
            proof {
                vstd::utf8::encode_utf8_valid_utf8(s@);
                vstd::utf8::is_char_boundary_iff_not_is_continuation_byte(s.spec_bytes(), at as int);
            }
            let (repo, rest) = s.split_at(at);
            proof {
                assert(rest.spec_bytes() =~= b@.subrange(at as int, b.len() as int));
                vstd::utf8::encode_utf8_valid_utf8(rest@);
                assert(rest.spec_bytes()[0] == 58u8);
                reveal_with_fuel(vstd::utf8::is_char_boundary, 2);
            }
            let (_, tag) = rest.split_at(1);
            assert(is_last_colon(encode_utf8(reference@), at as int));
            assert(tag.spec_bytes() =~= rest.spec_bytes().subrange(1, rest.spec_bytes().len() as int));
            assert(tag.spec_bytes() =~= b@.subrange(at + 1, b.len() as int));
            return (repo.to_owned(), Some(tag.to_owned()));
        }
        i -= 1;
    }
    (reference.clone(), None)
}

pub open spec fn opt_str(s: Option<String>) -> Option<Seq<char>> {
    match s {
        Some(x) => Some(x@),
        None => None,
    }
}

/// A network the runtime reports with this tool's labels.
pub struct RemoteNetwork {
    pub id: Option<String>,
    pub name: Option<String>,
    pub dns_enabled: Option<bool>,
    pub driver: Option<String>,
    pub internal: Option<bool>,
}

/// What to do about a declared network.
pub enum NetworkPlan {
    /// The one existing network has the desired attributes: use its name.
    Adopt(String),
    /// Create a fresh network; the existing ones are deleted once the run
    /// succeeds.
    Create(Vec<PostAction>),
}

pub open spec fn network_adoptable(a: NetworkAction, remote: Seq<RemoteNetwork>) -> bool {
    &&& remote.len() == 1
    &&& remote[0].dns_enabled == Some(a.dns_enabled)
    &&& remote[0].internal == Some(a.internal)
    &&& remote[0].driver matches Some(d) && d@ == a.driver@
    &&& remote[0].name is Some
}

/// Deletions of every listed network that has an ID, in order.
pub open spec fn network_deletions(remote: Seq<RemoteNetwork>) -> Seq<(PostKind, Seq<char>)>
    decreases remote.len(),
{
    if remote.len() == 0 {
        seq![]
    } else {
        let rest = network_deletions(remote.drop_last());
        match remote.last().id {
            Some(id) => rest.push((PostKind::DeleteNetwork, id@)),
            None => rest,
        }
    }
}

/// Decides on a network from the runtime's networks bearing its labels.
pub fn network_plan(action: &NetworkAction, remote: &Vec<RemoteNetwork>) -> (r: NetworkPlan)
    ensures
        network_adoptable(*action, remote@) ==> (r matches NetworkPlan::Adopt(n) && opt_str(remote@[0].name)
            == Some(n@)),
        !network_adoptable(*action, remote@) ==> (r matches NetworkPlan::Create(f) && post_views(f@)
            == network_deletions(remote@)),
{
    if remote.len() == 1 {
        let n = &remote[0];
        let same_driver = match &n.driver {
            Some(d) => d.eq(&action.driver),
            None => false,
        };
        if n.dns_enabled == Some(action.dns_enabled) && n.internal == Some(action.internal) && same_driver {
            if let Some(name) = &n.name {
                let adopted = name.clone();
                assert(adopted@ == name@);
                return NetworkPlan::Adopt(adopted);
            }
        }
    }
    let mut fin: Vec<PostAction> = Vec::new();
    let mut i: usize = 0;
    assert(remote@.subrange(0, 0) =~= seq![]);
    while i < remote.len()
        invariant
            i <= remote.len(),
            post_views(fin@) == network_deletions(remote@.subrange(0, i as int)),
        decreases remote.len() - i,
    {
        let ghost before = fin@;
        if let Some(id) = &remote[i].id {
            fin.push(PostAction::DeleteNetwork { id: id.clone() });
            assert(post_views(fin@) =~= post_views(before).push((PostKind::DeleteNetwork, id@)));
        }
        assert(remote@.subrange(0, i + 1).drop_last() =~= remote@.subrange(0, i as int));
        i += 1;
    }
    assert(remote@.subrange(0, remote.len() as int) =~= remote@);
    NetworkPlan::Create(fin)
}

/// The report after creating a network: its name resolves the reference,
/// its deletion is queued to undo the creation if the run fails, and the
/// replaced networks are queued for deletion if it succeeds.
pub fn network_created(replaced: Vec<PostAction>, id: String, name: String) -> (r: StepOutcome)
    ensures
        r.resolved matches Some(v) && v@ == name@,
        post_views(r.backtrack@) == seq![(PostKind::DeleteNetwork, id@)],
        r.finalize@ == replaced@,
        r.failure is None,
{
    let mut backtrack: Vec<PostAction> = Vec::new();
    backtrack.push(PostAction::DeleteNetwork { id });
    assert(post_views(backtrack@) =~= seq![(PostKind::DeleteNetwork, id@)]);
    StepOutcome { resolved: Some(name), backtrack, finalize: replaced, failure: None }
}

/// A volume the runtime reports with this tool's labels.
pub struct RemoteVolume {
    pub name: String,
    pub driver: String,
}

/// What to do about a declared volume.
pub enum VolumePlan {
    Adopt(String),
    Create(Vec<PostAction>),
}

pub open spec fn volume_adoptable(a: VolumeAction, remote: Seq<RemoteVolume>) -> bool {
    remote.len() == 1 && remote[0].driver@ == a.driver@
}

/// Decides on a volume from the runtime's volumes bearing its labels.
pub fn volume_plan(action: &VolumeAction, remote: &Vec<RemoteVolume>) -> (r: VolumePlan)
    ensures
        volume_adoptable(*action, remote@) ==> (r matches VolumePlan::Adopt(n) && n@ == remote@[0].name@),
        !volume_adoptable(*action, remote@) ==> (r matches VolumePlan::Create(f) && post_views(f@)
            == remote@.map_values(|v: RemoteVolume| (PostKind::DeleteVolume, v.name@))),
{
    if remote.len() == 1 && remote[0].driver.eq(&action.driver) {
        return VolumePlan::Adopt(remote[0].name.clone());
    }
    let mut fin: Vec<PostAction> = Vec::new();
    let mut i: usize = 0;
    while i < remote.len()
        invariant
            i <= remote.len(),
            post_views(fin@) == remote@.subrange(0, i as int).map_values(
                |v: RemoteVolume| (PostKind::DeleteVolume, v.name@),
            ),
        decreases remote.len() - i,
    {
        let ghost before = fin@;
        fin.push(PostAction::DeleteVolume { name: remote[i].name.clone() });
        assert(post_views(fin@) =~= post_views(before).push((PostKind::DeleteVolume, remote@[i as int].name@)));
        assert(remote@.subrange(0, i + 1).map_values(|v: RemoteVolume| (PostKind::DeleteVolume, v.name@))
            =~= remote@.subrange(0, i as int).map_values(|v: RemoteVolume| (PostKind::DeleteVolume, v.name@)).push(
            (PostKind::DeleteVolume, remote@[i as int].name@)));
        assert(post_views(fin@) =~= remote@.subrange(0, i + 1).map_values(
            |v: RemoteVolume| (PostKind::DeleteVolume, v.name@),
        ));
        i += 1;
    }
    assert(remote@.subrange(0, remote.len() as int) =~= remote@);
    VolumePlan::Create(fin)
}

/// The report after creating a volume.
pub fn volume_created(replaced: Vec<PostAction>, name: String) -> (r: StepOutcome)
    ensures
        r.resolved matches Some(v) && v@ == name@,
        post_views(r.backtrack@) == seq![(PostKind::DeleteVolume, name@)],
        r.finalize@ == replaced@,
        r.failure is None,
{
    let mut backtrack: Vec<PostAction> = Vec::new();
    backtrack.push(PostAction::DeleteVolume { name: name.clone() });
    assert(post_views(backtrack@) =~= seq![(PostKind::DeleteVolume, name@)]);
    StepOutcome { resolved: Some(name), backtrack, finalize: replaced, failure: None }
}

/// A secret the runtime lists, with the tool's labels it bears.
pub struct RemoteSecret {
    pub id: String,
    pub name: String,
    pub group_label: Option<String>,
    pub name_label: Option<String>,
}

pub open spec fn secret_owned(s: RemoteSecret, group: Seq<char>, name: Seq<char>) -> bool {
    (s.group_label matches Some(g) && g@ == group) && (s.name_label matches Some(n) && n@ == name)
}

/// Finds a secret: the first bearing this group's labels for the name,
/// otherwise the first whose runtime name is the name.
pub fn find_secret(group: &String, name: &String, secrets: &Vec<RemoteSecret>) -> (r: Option<String>)
    ensures
        match r {
            Some(id) => exists|i: int|
                0 <= i < secrets.len() && secrets@[i].id@ == id@ && (secret_owned(secrets@[i], group@, name@)
                    || (secrets@[i].name@ == name@ && forall|j: int| 0 <= j < secrets.len() ==> !secret_owned(#[trigger] secrets@[j], group@, name@)))
                    && forall|j: int| 0 <= j < i ==> !secret_owned(#[trigger] secrets@[j], group@, name@) && (secret_owned(secrets@[i], group@, name@) || secrets@[j].name@ != name@),
            None => forall|j: int| 0 <= j < secrets.len() ==> !secret_owned(#[trigger] secrets@[j], group@, name@) && secrets@[j].name@ != name@,
        },
{
    let mut i: usize = 0;
    while i < secrets.len()
        invariant
            i <= secrets.len(),
            forall|j: int| 0 <= j < i ==> !secret_owned(#[trigger] secrets@[j], group@, name@),
        decreases secrets.len() - i,
    {
        let s = &secrets[i];
        let owned = match (&s.group_label, &s.name_label) {
            (Some(g), Some(n)) => g.eq(group) && n.eq(name),
            _ => false,
        };
        if owned {
            return Some(s.id.clone());
        }
        i += 1;
    }
    let mut i: usize = 0;
    while i < secrets.len()
        invariant
            i <= secrets.len(),
            forall|j: int| 0 <= j < secrets.len() ==> !secret_owned(#[trigger] secrets@[j], group@, name@),
            forall|j: int| 0 <= j < i ==> secrets@[j].name@ != name@,
        decreases secrets.len() - i,
    {
        if secrets[i].name.eq(name) {
            return Some(secrets[i].id.clone());
        }
        i += 1;
    }
    None
}

/// A container the runtime lists under this tool's group.
pub struct RemoteGroupContainer {
    pub id: Option<String>,
    pub name_label: Option<String>,
    pub running: bool,
}

/// What the garbage pass does: stop these containers now, and queue the
/// post-actions.
pub struct GarbagePlan {
    pub stop: Vec<String>,
    pub backtrack: Vec<PostAction>,
    pub finalize: Vec<PostAction>,
}

/// Whether a listed container is obsolete: it has an ID and a name label
/// that the document no longer declares.
pub open spec fn obsolete(c: RemoteGroupContainer, declared: Seq<Seq<char>>) -> bool {
    c.id is Some && (c.name_label matches Some(n) && !declared.contains(n@))
}

pub open spec fn garbage_stops(remote: Seq<RemoteGroupContainer>, declared: Seq<Seq<char>>) -> Seq<Seq<char>>
    decreases remote.len(),
{
    if remote.len() == 0 {
        seq![]
    } else {
        let rest = garbage_stops(remote.drop_last(), declared);
        let c = remote.last();
        if obsolete(c, declared) && c.running {
            rest.push(c.id->Some_0@)
        } else {
            rest
        }
    }
}

pub open spec fn garbage_deletes(remote: Seq<RemoteGroupContainer>, declared: Seq<Seq<char>>) -> Seq<Seq<char>>
    decreases remote.len(),
{
    if remote.len() == 0 {
        seq![]
    } else {
        let rest = garbage_deletes(remote.drop_last(), declared);
        let c = remote.last();
        if obsolete(c, declared) {
            rest.push(c.id->Some_0@)
        } else {
            rest
        }
    }
}

pub open spec fn tagged(k: PostKind, ids: Seq<Seq<char>>) -> Seq<(PostKind, Seq<char>)> {
    ids.map_values(|id: Seq<char>| (k, id))
}

/// Plans the garbage pass: every obsolete container is deleted once the run
/// succeeds; the running ones are stopped now and restarted if it fails.
pub fn garbage_plan(declared: &Vec<String>, remote: &Vec<RemoteGroupContainer>) -> (r: GarbagePlan)
    ensures
        string_views(r.stop@) == garbage_stops(remote@, string_views(declared@)),
        post_views(r.backtrack@) == tagged(PostKind::RestartContainer, garbage_stops(remote@, string_views(declared@))),
        post_views(r.finalize@) == tagged(PostKind::DeleteContainer, garbage_deletes(remote@, string_views(declared@))),
{
    let ghost names = string_views(declared@);
    let mut stop: Vec<String> = Vec::new();
    let mut backtrack: Vec<PostAction> = Vec::new();
    let mut finalize: Vec<PostAction> = Vec::new();
    let mut i: usize = 0;
    assert(remote@.subrange(0, 0) =~= seq![]);
    while i < remote.len()
        invariant
            i <= remote.len(),
            names == string_views(declared@),
            string_views(stop@) == garbage_stops(remote@.subrange(0, i as int), names),
            post_views(backtrack@) == tagged(PostKind::RestartContainer, garbage_stops(remote@.subrange(0, i as int), names)),
            post_views(finalize@) == tagged(PostKind::DeleteContainer, garbage_deletes(remote@.subrange(0, i as int), names)),
        decreases remote.len() - i,
    {
        let c = &remote[i];
        let ghost pre = remote@.subrange(0, i as int);
        let ghost post = remote@.subrange(0, i + 1);
        assert(post.drop_last() =~= pre);
        let ghost s0 = stop@;
        let ghost b0 = backtrack@;
        let ghost f0 = finalize@;
        match (&c.id, &c.name_label) {
            (Some(id), Some(name)) => {
                if !crate::containers::contains_str(declared, name) {
                    if c.running {
                        stop.push(id.clone());
                        backtrack.push(PostAction::RestartContainer { id: id.clone() });
                        assert(string_views(stop@) =~= string_views(s0).push(id@));
                        assert(post_views(backtrack@) =~= post_views(b0).push((PostKind::RestartContainer, id@)));
                        assert(tagged(PostKind::RestartContainer, garbage_stops(post, names)) =~= tagged(PostKind::RestartContainer, garbage_stops(pre, names)).push((PostKind::RestartContainer, id@)));
                    }
                    finalize.push(PostAction::DeleteContainer { id: id.clone() });
                    assert(post_views(finalize@) =~= post_views(f0).push((PostKind::DeleteContainer, id@)));
                    assert(tagged(PostKind::DeleteContainer, garbage_deletes(post, names)) =~= tagged(PostKind::DeleteContainer, garbage_deletes(pre, names)).push((PostKind::DeleteContainer, id@)));
                }
            },
            _ => {},
        }
        i += 1;
    }
    assert(remote@.subrange(0, remote.len() as int) =~= remote@);
    GarbagePlan { stop, backtrack, finalize }
}

/// A resource the runtime lists, with the group label it bears.
pub struct LabeledResource {
    pub id: String,
    pub group: Option<String>,
    pub running: bool,
}

/// What `down` removes: the group's containers (stopping the running ones
/// first), networks and volumes.
pub struct DownPlan {
    pub stop: Vec<String>,
    pub delete_containers: Vec<String>,
    pub delete_networks: Vec<String>,
    pub delete_volumes: Vec<String>,
}

pub open spec fn in_group(r: LabeledResource, group: Seq<char>) -> bool {
    r.group matches Some(g) && g@ == group
}

/// IDs of the listed resources that bear the group label, in order; with
/// `running_only`, of the running ones among them.
pub open spec fn group_ids(s: Seq<LabeledResource>, group: Seq<char>, running_only: bool) -> Seq<Seq<char>>
    decreases s.len(),
{
    if s.len() == 0 {
        seq![]
    } else {
        let rest = group_ids(s.drop_last(), group, running_only);
        let r = s.last();
        if in_group(r, group) && (!running_only || r.running) {
            rest.push(r.id@)
        } else {
            rest
        }
    }
}

fn select_group(s: &Vec<LabeledResource>, group: &String, running_only: bool) -> (r: Vec<String>)
    ensures
        string_views(r@) == group_ids(s@, group@, running_only),
{
    let mut out: Vec<String> = Vec::new();
    let mut i: usize = 0;
    assert(s@.subrange(0, 0) =~= seq![]);
    while i < s.len()
        invariant
            i <= s.len(),
            string_views(out@) == group_ids(s@.subrange(0, i as int), group@, running_only),
        decreases s.len() - i,
    {
        let x = &s[i];
        let ghost before = out@;
        assert(s@.subrange(0, i + 1).drop_last() =~= s@.subrange(0, i as int));
        let member = match &x.group {
            Some(g) => g.eq(group),
            None => false,
        };
        if member && (!running_only || x.running) {
            out.push(x.id.clone());
            assert(string_views(out@) =~= string_views(before).push(x.id@));
        }
        i += 1;
    }
    assert(s@.subrange(0, s.len() as int) =~= s@);
    out
}

/// Plans `down` for a group: exactly the resources bearing the group label
/// are removed, and the running containers among them are stopped first.
pub fn down_plan(
    group: &String,
    containers: &Vec<LabeledResource>,
    networks: &Vec<LabeledResource>,
    volumes: &Vec<LabeledResource>,
) -> (r: DownPlan)
    ensures
        string_views(r.stop@) == group_ids(containers@, group@, true),
        string_views(r.delete_containers@) == group_ids(containers@, group@, false),
        string_views(r.delete_networks@) == group_ids(networks@, group@, false),
        string_views(r.delete_volumes@) == group_ids(volumes@, group@, false),
{
    DownPlan {
        stop: select_group(containers, group, true),
        delete_containers: select_group(containers, group, false),
        delete_networks: select_group(networks, group, false),
        delete_volumes: select_group(volumes, group, false),
    }
}

/// With every listed container still declared, the garbage pass stops,
/// restarts and deletes nothing.
pub proof fn lemma_no_garbage_when_all_declared(remote: Seq<RemoteGroupContainer>, declared: Seq<Seq<char>>)
    requires
        forall|i: int| 0 <= i < remote.len() ==> !obsolete(#[trigger] remote[i], declared),
    ensures
        garbage_stops(remote, declared).len() == 0,
        garbage_deletes(remote, declared).len() == 0,
    decreases remote.len(),
{
    if remote.len() > 0 {
        assert(!obsolete(remote[remote.len() - 1], declared));
        assert forall|i: int| 0 <= i < remote.drop_last().len() implies !obsolete(#[trigger] remote.drop_last()[i], declared) by {
            assert(remote.drop_last()[i] == remote[i]);
        }
        lemma_no_garbage_when_all_declared(remote.drop_last(), declared);
    }
}

} // verus!
