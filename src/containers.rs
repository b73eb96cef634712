use vstd::prelude::*;
use vstd::multiset::Multiset;
use crate::executor::{table_get, Executor, StepOutcome};
use crate::fingerprint::{
    decode_inject_label, enc, encodable, encode_inject_label, keys_distinct, label_tree, lemma_same_reflexive, model,
    nodes_same, same, url_safe_encoded, InjectNode, NodeModel,
};
use crate::labels::{label_key, XTug};
use crate::model::protocol_text;
use crate::plan::{post_views, ContainerAction, ContainerActionPort, PostAction, PostKind};
use crate::prepare::string_views;
use crate::secrets::{prints_bytes, prints_storable, secret_fingerprint_matches, secret_label, SecretFingerprint};
use vstd::utf8::encode_utf8;
use vstd::string::StringSliceAdditionalSpecFns;

verus! {

broadcast use {vstd::seq_lib::group_to_multiset_ensures, vstd::multiset::group_multiset_axioms};

/// A port mapping the runtime reports for a container.
pub struct RemotePort {
    pub container_port: Option<u16>,
    pub host_port: Option<u16>,
    pub protocol: Option<String>,
}

/// A port mapping as (container port, host port, protocol).
pub type PortKey = (Option<u16>, Option<u16>, Option<Seq<char>>);

pub open spec fn opt_view(s: Option<String>) -> Option<Seq<char>> {
    match s {
        Some(x) => Some(x@),
        None => None,
    }
}

pub open spec fn remote_port_key(p: RemotePort) -> PortKey {
    (p.container_port, p.host_port, opt_view(p.protocol))
}

pub open spec fn wanted_port_key(p: ContainerActionPort) -> PortKey {
    (Some(p.container), Some(p.host), Some(protocol_text(p.protocol)))
}

pub open spec fn remote_port_keys(s: Seq<RemotePort>) -> Seq<PortKey> {
    s.map_values(|p: RemotePort| remote_port_key(p))
}

pub open spec fn wanted_port_keys(s: Seq<ContainerActionPort>) -> Seq<PortKey> {
    s.map_values(|p: ContainerActionPort| wanted_port_key(p))
}

fn port_matches(w: &ContainerActionPort, r: &RemotePort) -> (b: bool)
    ensures
        b == (wanted_port_key(*w) == remote_port_key(*r)),
{
    match (r.container_port, r.host_port, &r.protocol) {
        (Some(c), Some(h), Some(p)) => {
            let text = w.protocol.to_protocol_string();
            c == w.container && h == w.host && p.eq(&text)
        },
        _ => false,
    }
}

proof fn lemma_cancel<A>(a: Multiset<A>, b: Multiset<A>, c: Multiset<A>)
    requires
        a.add(b) == a.add(c),
    ensures
        b == c,
{
    assert forall|x: A| b.count(x) == c.count(x) by {
        vstd::multiset::axiom_multiset_add(a, b, x);
        vstd::multiset::axiom_multiset_add(a, c, x);
        assert(a.add(b).count(x) == a.add(c).count(x));
    }
    assert(b =~= c);
}

/// Whether the runtime's port mappings are, as a multiset, the desired ones.
pub fn check_port_mappings(expected: &Vec<ContainerActionPort>, actual: &Vec<RemotePort>) -> (r: bool)
    ensures
        r == (wanted_port_keys(expected@).to_multiset() == remote_port_keys(actual@).to_multiset()),
{
    let ghost target = remote_port_keys(actual@).to_multiset();
    let mut idx: Vec<usize> = Vec::new();
    let mut i: usize = 0;
    while i < actual.len()
        invariant
            i <= actual.len(),
            idx@ == Seq::new(i as nat, |j: int| j as usize),
        decreases actual.len() - i,
    {
        idx.push(i);
        assert(idx@ =~= Seq::new((i + 1) as nat, |j: int| j as usize));
        i += 1;
    }
    let ghost rk = |v: Seq<usize>| v.map_values(|j: usize| remote_port_key(actual@[j as int]));
    assert(rk(idx@) =~= remote_port_keys(actual@));
    let mut k: usize = 0;
    assert(wanted_port_keys(expected@).subrange(0, 0) =~= seq![]);
    while k < expected.len()
        invariant
            k <= expected.len(),
            forall|j: int| 0 <= j < idx.len() ==> (#[trigger] idx@[j]) < actual.len(),
            rk == (|v: Seq<usize>| v.map_values(|j: usize| remote_port_key(actual@[j as int]))),
            target == remote_port_keys(actual@).to_multiset(),
            wanted_port_keys(expected@).subrange(0, k as int).to_multiset().add(rk(idx@).to_multiset()) == target,
        decreases expected.len() - k,
    {
        let mut j: usize = 0;
        let mut found = false;
        while j < idx.len()
            invariant
                k < expected.len(),
                j <= idx.len(),
                forall|m: int| 0 <= m < idx.len() ==> (#[trigger] idx@[m]) < actual.len(),
                !found ==> forall|m: int| 0 <= m < j ==> wanted_port_key(expected@[k as int]) != remote_port_key(actual@[idx@[m] as int]),
                found ==> j < idx.len() && wanted_port_key(expected@[k as int]) == remote_port_key(actual@[idx@[j as int] as int]),
            ensures
                !found ==> j == idx.len(),
                !found ==> forall|m: int| 0 <= m < j ==> wanted_port_key(expected@[k as int]) != remote_port_key(actual@[idx@[m] as int]),
                found ==> j < idx.len() && wanted_port_key(expected@[k as int]) == remote_port_key(actual@[idx@[j as int] as int]),
            decreases idx.len() - j + if found { 0int } else { 1int },
        {
            if port_matches(&expected[k], &actual[idx[j]]) {
                found = true;
                break;
            }
            j += 1;
        }
        let ghost w = wanted_port_keys(expected@);
        let ghost key = w[k as int];
        proof {
            assert(w.subrange(0, k + 1) =~= w.subrange(0, k as int).push(key));
        }
        if !found {
            proof {
                if w.to_multiset() == target {
                    let rest = w.subrange(k as int, w.len() as int);
                    assert(w =~= w.subrange(0, k as int) + rest);
                    vstd::seq_lib::lemma_multiset_commutative(w.subrange(0, k as int), rest);
                    lemma_cancel(w.subrange(0, k as int).to_multiset(), rest.to_multiset(), rk(idx@).to_multiset());
                    assert(rest[0] == key);
                    assert(rest.to_multiset().contains(key));
                    let ks = rk(idx@);
                    assert(ks.to_multiset().contains(key));
                    assert(ks.contains(key));
                    let m = choose|m: int| 0 <= m < ks.len() && #[trigger] ks[m] == key;
                    assert(ks[m] == remote_port_key(actual@[idx@[m] as int]));
                    assert(key == wanted_port_key(expected@[k as int]));
                    assert(j == idx.len());
                }
            }
            return false;
        }
        let ghost before = idx@;
        idx.remove(j);
        proof {
            assert(rk(idx@) =~= rk(before).remove(j as int));
            assert(rk(before)[j as int] == key);
            vstd::seq_lib::to_multiset_remove(rk(before), j as int);
            assert(w.subrange(0, k + 1).to_multiset() =~= w.subrange(0, k as int).to_multiset().insert(key));
            assert(rk(before).to_multiset().contains(key));
            assert(w.subrange(0, k + 1).to_multiset().add(rk(idx@).to_multiset()) =~= target);
        }
        k += 1;
    }
    proof {
        let w = wanted_port_keys(expected@);
        assert(w.subrange(0, expected.len() as int) =~= w);
        if idx.len() == 0 {
            assert(rk(idx@) =~= seq![]);
            vstd::seq_lib::to_multiset_len(rk(idx@));
            assert(rk(idx@).to_multiset().len() == 0);
            assert(rk(idx@).to_multiset() =~= Multiset::empty());
            assert(w.to_multiset().add(Multiset::empty()) =~= w.to_multiset());
            assert(w.to_multiset().add(rk(idx@).to_multiset()) == target);
        } else {
            vstd::seq_lib::to_multiset_len(rk(idx@));
            vstd::multiset::axiom_len_add(w.to_multiset(), rk(idx@).to_multiset());
            assert(rk(idx@).to_multiset().len() > 0);
        }
    }
    idx.len() == 0
}

/// A mount the runtime reports for a container.
pub struct RemoteMount {
    pub name: Option<String>,
    pub destination: Option<String>,
}

/// A desired mount: the resolved volume name and the destination.
pub struct WantedMount {
    pub volume: String,
    pub destination: String,
}

pub type MountKey = (Option<Seq<char>>, Option<Seq<char>>);

pub open spec fn remote_mount_key(m: RemoteMount) -> MountKey {
    (opt_view(m.name), opt_view(m.destination))
}

pub open spec fn wanted_mount_key(m: WantedMount) -> MountKey {
    (Some(m.volume@), Some(m.destination@))
}

pub open spec fn remote_mount_keys(s: Seq<RemoteMount>) -> Seq<MountKey> {
    s.map_values(|m: RemoteMount| remote_mount_key(m))
}

pub open spec fn wanted_mount_keys(s: Seq<WantedMount>) -> Seq<MountKey> {
    s.map_values(|m: WantedMount| wanted_mount_key(m))
}

fn mount_matches(w: &WantedMount, r: &RemoteMount) -> (b: bool)
    ensures
        b == (wanted_mount_key(*w) == remote_mount_key(*r)),
{
    match (&r.name, &r.destination) {
        (Some(n), Some(d)) => n.eq(&w.volume) && d.eq(&w.destination),
        _ => false,
    }
}

/// Whether the runtime's mounts are, as a multiset, the desired named
/// volumes at their destinations.
pub fn check_mount_mappings(expected: &Vec<WantedMount>, actual: &Vec<RemoteMount>) -> (r: bool)
    ensures
        r == (wanted_mount_keys(expected@).to_multiset() == remote_mount_keys(actual@).to_multiset()),
{
    let ghost target = remote_mount_keys(actual@).to_multiset();
    let mut idx: Vec<usize> = Vec::new();
    let mut i: usize = 0;
    while i < actual.len()
        invariant
            i <= actual.len(),
            idx@ == Seq::new(i as nat, |j: int| j as usize),
        decreases actual.len() - i,
    {
        idx.push(i);
        assert(idx@ =~= Seq::new((i + 1) as nat, |j: int| j as usize));
        i += 1;
    }
    let ghost rk = |v: Seq<usize>| v.map_values(|j: usize| remote_mount_key(actual@[j as int]));
    assert(rk(idx@) =~= remote_mount_keys(actual@));
    let mut k: usize = 0;
    assert(wanted_mount_keys(expected@).subrange(0, 0) =~= seq![]);
    while k < expected.len()
        invariant
            k <= expected.len(),
            forall|j: int| 0 <= j < idx.len() ==> (#[trigger] idx@[j]) < actual.len(),
            rk == (|v: Seq<usize>| v.map_values(|j: usize| remote_mount_key(actual@[j as int]))),
            target == remote_mount_keys(actual@).to_multiset(),
            wanted_mount_keys(expected@).subrange(0, k as int).to_multiset().add(rk(idx@).to_multiset()) == target,
        decreases expected.len() - k,
    {
        let mut j: usize = 0;
        let mut found = false;
        while j < idx.len()
            invariant
                k < expected.len(),
                j <= idx.len(),
                forall|m: int| 0 <= m < idx.len() ==> (#[trigger] idx@[m]) < actual.len(),
                !found ==> forall|m: int| 0 <= m < j ==> wanted_mount_key(expected@[k as int]) != remote_mount_key(actual@[idx@[m] as int]),
                found ==> j < idx.len() && wanted_mount_key(expected@[k as int]) == remote_mount_key(actual@[idx@[j as int] as int]),
            ensures
                !found ==> j == idx.len(),
                !found ==> forall|m: int| 0 <= m < j ==> wanted_mount_key(expected@[k as int]) != remote_mount_key(actual@[idx@[m] as int]),
                found ==> j < idx.len() && wanted_mount_key(expected@[k as int]) == remote_mount_key(actual@[idx@[j as int] as int]),
            decreases idx.len() - j + if found { 0int } else { 1int },
        {
            if mount_matches(&expected[k], &actual[idx[j]]) {
                found = true;
                break;
            }
            j += 1;
        }
        let ghost w = wanted_mount_keys(expected@);
        let ghost key = w[k as int];
        proof {
            assert(w.subrange(0, k + 1) =~= w.subrange(0, k as int).push(key));
        }
        if !found {
            proof {
                if w.to_multiset() == target {
                    let rest = w.subrange(k as int, w.len() as int);
                    assert(w =~= w.subrange(0, k as int) + rest);
                    vstd::seq_lib::lemma_multiset_commutative(w.subrange(0, k as int), rest);
                    lemma_cancel(w.subrange(0, k as int).to_multiset(), rest.to_multiset(), rk(idx@).to_multiset());
                    assert(rest[0] == key);
                    assert(rest.to_multiset().contains(key));
                    let ks = rk(idx@);
                    assert(ks.to_multiset().contains(key));
                    assert(ks.contains(key));
                    let m = choose|m: int| 0 <= m < ks.len() && #[trigger] ks[m] == key;
                    assert(ks[m] == remote_mount_key(actual@[idx@[m] as int]));
                    assert(key == wanted_mount_key(expected@[k as int]));
                    assert(j == idx.len());
                }
            }
            return false;
        }
        let ghost before = idx@;
        idx.remove(j);
        proof {
            assert(rk(idx@) =~= rk(before).remove(j as int));
            assert(rk(before)[j as int] == key);
            vstd::seq_lib::to_multiset_remove(rk(before), j as int);
            assert(w.subrange(0, k + 1).to_multiset() =~= w.subrange(0, k as int).to_multiset().insert(key));
            assert(rk(before).to_multiset().contains(key));
            assert(w.subrange(0, k + 1).to_multiset().add(rk(idx@).to_multiset()) =~= target);
        }
        k += 1;
    }
    proof {
        let w = wanted_mount_keys(expected@);
        assert(w.subrange(0, expected.len() as int) =~= w);
        if idx.len() == 0 {
            assert(rk(idx@) =~= seq![]);
            vstd::seq_lib::to_multiset_len(rk(idx@));
            assert(rk(idx@).to_multiset().len() == 0);
            assert(rk(idx@).to_multiset() =~= Multiset::empty());
            assert(w.to_multiset().add(Multiset::empty()) =~= w.to_multiset());
            assert(w.to_multiset().add(rk(idx@).to_multiset()) == target);
        } else {
            vstd::seq_lib::to_multiset_len(rk(idx@));
            vstd::multiset::axiom_len_add(w.to_multiset(), rk(idx@).to_multiset());
            assert(rk(idx@).to_multiset().len() > 0);
        }
    }
    idx.len() == 0
}

pub(crate) fn contains_str(v: &Vec<String>, x: &String) -> (r: bool)
    ensures
        r == string_views(v@).contains(x@),
{
    let mut i: usize = 0;
    while i < v.len()
        invariant
            i <= v.len(),
            forall|j: int| 0 <= j < i ==> v@[j]@ != x@,
        decreases v.len() - i,
    {
        if v[i].eq(x) {
            assert(string_views(v@)[i as int] == x@);
            return true;
        }
        i += 1;
    }
    proof {
        if string_views(v@).contains(x@) {
            let k = choose|k: int| 0 <= k < v.len() && string_views(v@)[k] == x@;
            assert(v@[k]@ == x@);
        }
    }
    false
}

/// Number of distinct strings of `a` that `b` lacks.
fn set_minus_count(a: &Vec<String>, b: &Vec<String>) -> (r: usize)
    ensures
        r == string_views(a@).to_set().difference(string_views(b@).to_set()).len(),
{
    let ghost bs = string_views(b@).to_set();
    let mut diff: Vec<String> = Vec::new();
    let mut i: usize = 0;
    while i < a.len()
        invariant
            i <= a.len(),
            bs == string_views(b@).to_set(),
            string_views(diff@).no_duplicates(),
            string_views(diff@).to_set() == string_views(a@.subrange(0, i as int)).to_set().difference(bs),
            diff.len() <= i,
        decreases a.len() - i,
    {
        let x = &a[i];
        let ghost before = string_views(diff@);
        let ghost pre = string_views(a@.subrange(0, i as int));
        let ghost post = string_views(a@.subrange(0, i + 1));
        assert(post =~= pre.push(x@));
        if !contains_str(b, x) && !contains_str(&diff, x) {
            diff.push(x.clone());
            proof {
                assert(string_views(diff@) =~= before.push(x@));
                assert(string_views(diff@).to_set() =~= post.to_set().difference(bs)) by {
                    assert forall|y: Seq<char>| string_views(diff@).to_set().contains(y) <==> post.to_set().difference(bs).contains(y) by {
                        if y == x@ {
                            assert(post[i as int] == y);
                            assert(string_views(diff@)[before.len() as int] == y);
                        } else {
                            if string_views(diff@).contains(y) {
                                let k = choose|k: int| 0 <= k < string_views(diff@).len() && string_views(diff@)[k] == y;
                                assert(before[k] == y);
                                assert(before.to_set().contains(y));
                                let m = choose|m: int| 0 <= m < pre.len() && pre[m] == y;
                                assert(post[m] == y);
                            }
                            if post.contains(y) && !bs.contains(y) {
                                let m = choose|m: int| 0 <= m < post.len() && post[m] == y;
                                assert(pre[m] == y);
                                assert(pre.to_set().difference(bs).contains(y));
                                assert(before.contains(y));
                                let k = choose|k: int| 0 <= k < before.len() && before[k] == y;
                                assert(string_views(diff@)[k] == y);
                            }
                        }
                    }
                }
            }
        } else {
            proof {
                assert(string_views(diff@).to_set() =~= post.to_set().difference(bs)) by {
                    assert forall|y: Seq<char>| before.to_set().contains(y) <==> post.to_set().difference(bs).contains(y) by {
                        if y == x@ {
                            assert(post[i as int] == y);
                            if !bs.contains(y) {
                                assert(before.contains(y));
                            }
                        } else {
                            if before.contains(y) {
                                assert(pre.to_set().difference(bs).contains(y));
                                let m = choose|m: int| 0 <= m < pre.len() && pre[m] == y;
                                assert(post[m] == y);
                            }
                            if post.contains(y) && !bs.contains(y) {
                                let m = choose|m: int| 0 <= m < post.len() && post[m] == y;
                                assert(pre[m] == y);
                                assert(pre.to_set().difference(bs).contains(y));
                            }
                        }
                    }
                }
            }
        }
        i += 1;
    }
    proof {
        assert(a@.subrange(0, a.len() as int) =~= a@);
        string_views(diff@).unique_seq_to_set();
    }
    diff.len()
}

/// Size of the symmetric difference of two alias lists, taken as sets.
pub open spec fn alias_diff(a: Seq<Seq<char>>, b: Seq<Seq<char>>) -> nat {
    a.to_set().difference(b.to_set()).len() + b.to_set().difference(a.to_set()).len()
}

/// Whether an attachment's aliases are close enough to the desired ones:
/// equal, or differing in at most one alias, which the runtime may add on
/// its own.
pub open spec fn aliases_close(actual: Option<Seq<Seq<char>>>, wanted: Seq<Seq<char>>) -> bool {
    match actual {
        Some(a) => a == wanted || alias_diff(a, wanted) <= 1,
        None => alias_diff(seq![], wanted) <= 1,
    }
}

/// A network attachment the runtime reports for a container.
pub struct RemoteAttachment {
    pub network: String,
    pub aliases: Option<Vec<String>>,
}

/// A desired attachment: the resolved network name and the aliases.
pub struct WantedNetwork {
    pub network: String,
    pub aliases: Vec<String>,
}

pub open spec fn remote_aliases(a: RemoteAttachment) -> Option<Seq<Seq<char>>> {
    match a.aliases {
        Some(v) => Some(string_views(v@)),
        None => None,
    }
}

pub open spec fn attachment_names(s: Seq<RemoteAttachment>) -> Seq<Seq<char>> {
    s.map_values(|a: RemoteAttachment| a.network@)
}

pub open spec fn wanted_names(s: Seq<WantedNetwork>) -> Seq<Seq<char>> {
    s.map_values(|w: WantedNetwork| w.network@)
}

/// Whether the attachments are the desired networks, each with aliases
/// close to the desired ones.
pub open spec fn networks_match(w: Seq<WantedNetwork>, a: Seq<RemoteAttachment>) -> bool {
    &&& w.len() == a.len()
    &&& wanted_names(w).no_duplicates()
    &&& matched_upto(w, a, w.len() as int)
}

/// Whether some attachment is to the desired network, with aliases close to
/// the desired ones.
pub open spec fn has_close_attachment(w: WantedNetwork, a: Seq<RemoteAttachment>) -> bool {
    exists|j: int|
        0 <= j < a.len() && (#[trigger] a[j]).network@ == w.network@ && aliases_close(
            remote_aliases(a[j]),
            string_views(w.aliases@),
        )
}

/// Whether each of the first `n` desired networks has a close attachment.
pub open spec fn matched_upto(w: Seq<WantedNetwork>, a: Seq<RemoteAttachment>, n: int) -> bool {
    forall|k: int| 0 <= k < n ==> has_close_attachment(#[trigger] w[k], a)
}

fn strings_eq(a: &Vec<String>, b: &Vec<String>) -> (r: bool)
    ensures
        r == (string_views(a@) == string_views(b@)),
{
    if a.len() != b.len() {
        return false;
    }
    let mut i: usize = 0;
    while i < a.len()
        invariant
            a.len() == b.len(),
            i <= a.len(),
            forall|j: int| 0 <= j < i ==> a@[j]@ == b@[j]@,
        decreases a.len() - i,
    {
        if !a[i].eq(&b[i]) {
            assert(string_views(a@)[i as int] != string_views(b@)[i as int]);
            return false;
        }
        i += 1;
    }
    assert(string_views(a@) =~= string_views(b@));
    true
}

fn aliases_ok(actual: &Option<Vec<String>>, wanted: &Vec<String>) -> (r: bool)
    ensures
        r == aliases_close(
            match actual {
                Some(v) => Some(string_views(v@)),
                None => None,
            },
            string_views(wanted@),
        ),
{
    let empty: Vec<String> = Vec::new();
    let a = match actual {
        Some(v) => {
            if strings_eq(v, wanted) {
                return true;
            }
            v
        },
        None => &empty,
    };
    assert(string_views(empty@) =~= seq![]);
    let x = set_minus_count(a, wanted);
    let y = set_minus_count(wanted, a);
    x <= 1 && y <= 1 && x + y <= 1
}

/// Whether the runtime's network attachments match the desired ones. The
/// runtime keys attachments by network name, so their names are distinct.
pub fn check_network_mappings(expected: &Vec<WantedNetwork>, actual: &Vec<RemoteAttachment>) -> (r: bool)
    requires
        attachment_names(actual@).no_duplicates(),
    ensures
        r == networks_match(expected@, actual@),
{
    if expected.len() != actual.len() {
        return false;
    }
    let mut names: Vec<String> = Vec::new();
    let mut i: usize = 0;
    while i < expected.len()
        invariant
            i <= expected.len(),
            string_views(names@) == wanted_names(expected@).subrange(0, i as int),
        decreases expected.len() - i,
    {
        let ghost before = names@;
        names.push(expected[i].network.clone());
        proof {
            assert(string_views(names@) =~= string_views(before).push(expected@[i as int].network@));
            assert(wanted_names(expected@).subrange(0, i + 1) =~= wanted_names(expected@).subrange(0, i as int).push(expected@[i as int].network@));
        }
        i += 1;
    }
    assert(wanted_names(expected@).subrange(0, expected.len() as int) =~= wanted_names(expected@));
    if !distinct(&names) {
        return false;
    }
    let mut k: usize = 0;
    while k < expected.len()
        invariant
            k <= expected.len(),
            expected.len() == actual.len(),
            attachment_names(actual@).no_duplicates(),
            wanted_names(expected@).no_duplicates(),
            matched_upto(expected@, actual@, k as int),
        decreases expected.len() - k,
    {
        let w = &expected[k];
        let j = find_attachment(actual, &w.network);
        if j == actual.len() {
            return false;
        }
        if !aliases_ok(&actual[j].aliases, &w.aliases) {
            assert(remote_aliases(actual@[j as int]) == match actual@[j as int].aliases {
                Some(v) => Some(string_views(v@)),
                None => None,
            });
            proof {
                assert forall|j2: int| 0 <= j2 < actual.len() && actual@[j2].network@ == w.network@
                    implies !aliases_close(remote_aliases(actual@[j2]), string_views(w.aliases@)) by {
                    if j2 != j {
                        assert(attachment_names(actual@)[j2] == actual@[j2].network@);
                        assert(attachment_names(actual@)[j as int] == actual@[j as int].network@);
                    }
                }
            }
            return false;
        }
        proof {
            assert(remote_aliases(actual@[j as int]) == match actual@[j as int].aliases {
                Some(v) => Some(string_views(v@)),
                None => None,
            });
            assert(expected@[k as int] == *w);
            assert(has_close_attachment(expected@[k as int], actual@)) by {
                assert(actual@[j as int].network@ == expected@[k as int].network@);
            }
            assert forall|m: int| 0 <= m < k + 1 implies has_close_attachment(#[trigger] expected@[m], actual@) by {
            }
        }
        k += 1;
    }
    true
}

fn find_attachment(actual: &Vec<RemoteAttachment>, name: &String) -> (j: usize)
    ensures
        j <= actual.len(),
        forall|m: int| 0 <= m < j ==> actual@[m].network@ != name@,
        j < actual.len() ==> actual@[j as int].network@ == name@,
{
    let mut j: usize = 0;
    while j < actual.len()
        invariant
            j <= actual.len(),
            forall|m: int| 0 <= m < j ==> actual@[m].network@ != name@,
        decreases actual.len() - j,
    {
        if actual[j].network.eq(name) {
            return j;
        }
        j += 1;
    }
    j
}

fn distinct(v: &Vec<String>) -> (r: bool)
    ensures
        r == string_views(v@).no_duplicates(),
{
    let n = v.len();
    let mut j: usize = 0;
    while j < n
        invariant
            j <= n,
            n == v.len(),
            forall|a: int, b: int| 0 <= a < b < j ==> v@[a]@ != v@[b]@,
        decreases n - j,
    {
        let mut i: usize = 0;
        while i < j
            invariant
                i <= j < n,
                n == v.len(),
                forall|a: int| 0 <= a < i ==> v@[a]@ != v@[j as int]@,
            decreases j - i,
        {
            if v[i].eq(&v[j]) {
                assert(string_views(v@)[i as int] == string_views(v@)[j as int]);
                return false;
            }
            i += 1;
        }
        j += 1;
    }
    true
}

/// A secret bound into a container: its runtime ID and the environment
/// variable it is exposed as.
pub struct SecretBinding {
    pub id: String,
    pub target: String,
}

/// A container action with every reference replaced by the runtime
/// identifier its producing step recorded.
pub struct ResolvedContainer {
    pub name: String,
    pub image: String,
    pub command: Option<Vec<String>>,
    pub ports: Vec<ContainerActionPort>,
    pub networks: Vec<WantedNetwork>,
    pub mounts: Vec<WantedMount>,
    pub secrets: Vec<SecretBinding>,
}

/// What the library reads of an existing container.
pub struct ObservedContainer {
    pub id: String,
    pub image: Option<String>,
    pub command: Option<Vec<String>>,
    pub ports: Vec<RemotePort>,
    pub networks: Vec<RemoteAttachment>,
    pub mounts: Vec<RemoteMount>,
    pub inject_label: Option<String>,
    pub secret_label: Option<String>,
    pub running: bool,
}

pub open spec fn opt_strings(c: Option<Vec<String>>) -> Option<Seq<Seq<char>>> {
    match c {
        Some(v) => Some(string_views(v@)),
        None => None,
    }
}

/// Whether an existing container has the desired image, command, ports,
/// networks and mounts.
pub open spec fn structure_matches(d: ResolvedContainer, o: ObservedContainer) -> bool {
    &&& opt_view(o.image) == Some(d.image@)
    &&& opt_strings(o.command) == opt_strings(d.command)
    &&& wanted_port_keys(d.ports@).to_multiset() == remote_port_keys(o.ports@).to_multiset()
    &&& networks_match(d.networks@, o.networks@)
    &&& wanted_mount_keys(d.mounts@).to_multiset() == remote_mount_keys(o.mounts@).to_multiset()
}

/// Whether the stored inject fingerprint matches the fresh one. Without a
/// label there must be nothing injected; an unreadable label never matches.
pub open spec fn inject_matches(label: Option<String>, fresh: NodeModel) -> bool {
    match label {
        None => fresh matches NodeModel::Directory(ch) && ch.len() == 0,
        Some(l) => match label_tree(l@) {
            Some(t) => same(fresh, t),
            None => false,
        },
    }
}

pub open spec fn secrets_match(label: Option<String>, prints: Seq<SecretFingerprint>) -> bool {
    match label {
        None => prints.len() == 0,
        Some(l) => prints.len() > 0 && prints_bytes(prints) is Some && crate::fingerprint::url_safe_decoded(l@) == prints_bytes(prints),
    }
}

/// Whether the one existing container can be kept as it is.
pub open spec fn adoptable(d: ResolvedContainer, o: ObservedContainer, fresh: NodeModel, prints: Seq<SecretFingerprint>) -> bool {
    &&& structure_matches(d, o)
    &&& inject_matches(o.inject_label, fresh)
    &&& secrets_match(o.secret_label, prints)
}

/// What to do about a declared container.
pub enum ContainerPlan {
    /// No container exists: create one.
    Create,
    /// Keep the existing container, starting it if it is not running.
    Adopt { id: String, start: bool },
    /// Stop the existing containers now, restart them if the run fails,
    /// delete them if it succeeds, and create a new one.
    Replace { stop: Vec<String>, backtrack: Vec<PostAction>, finalize: Vec<PostAction> },
}

pub open spec fn observed_ids(o: Seq<ObservedContainer>) -> Seq<Seq<char>> {
    o.map_values(|c: ObservedContainer| c.id@)
}

pub open spec fn tag_ids(k: PostKind, ids: Seq<Seq<char>>) -> Seq<(PostKind, Seq<char>)> {
    ids.map_values(|id: Seq<char>| (k, id))
}

pub open spec fn well_observed(o: Seq<ObservedContainer>) -> bool {
    forall|i: int| 0 <= i < o.len() ==> attachment_names((#[trigger] o[i]).networks@).no_duplicates()
}

fn opt_string_eq(a: &Option<String>, b: &String) -> (r: bool)
    ensures
        r == (opt_view(*a) == Some(b@)),
{
    match a {
        Some(x) => x.eq(b),
        None => false,
    }
}

fn opt_strings_eq(a: &Option<Vec<String>>, b: &Option<Vec<String>>) -> (r: bool)
    ensures
        r == (opt_strings(*a) == opt_strings(*b)),
{
    match (a, b) {
        (Some(x), Some(y)) => strings_eq(x, y),
        (None, None) => true,
        _ => false,
    }
}

/// Whether the stored inject fingerprint label matches the fresh tree.
pub fn inject_label_matches(label: &Option<String>, fresh: &InjectNode) -> (r: bool)
    ensures
        r == inject_matches(*label, model(*fresh)),
{
    match label {
        None => match fresh {
            InjectNode::Directory(ch) => ch.len() == 0,
            _ => false,
        },
        Some(l) => match decode_inject_label(l) {
            Some(t) => nodes_same(fresh, &t),
            None => false,
        },
    }
}

/// Decides on a container from the runtime's containers bearing its
/// labels, the fresh inject fingerprint and the current secret entries.
pub fn decide_container(
    d: &ResolvedContainer,
    observed: &Vec<ObservedContainer>,
    fresh: &InjectNode,
    prints: &Vec<SecretFingerprint>,
) -> (r: ContainerPlan)
    requires
        well_observed(observed@),
    ensures
        observed.len() == 0 ==> r is Create,
        observed.len() == 1 && adoptable(*d, observed@[0], model(*fresh), prints@) ==> (r matches ContainerPlan::Adopt { id, start }
            && id@ == observed@[0].id@ && start == !observed@[0].running),
        observed.len() > 0 && !(observed.len() == 1 && adoptable(*d, observed@[0], model(*fresh), prints@)) ==> (r matches ContainerPlan::Replace { stop, backtrack, finalize }
            && string_views(stop@) == observed_ids(observed@)
            && post_views(backtrack@) == tag_ids(PostKind::RestartContainer, observed_ids(observed@))
            && post_views(finalize@) == tag_ids(PostKind::DeleteContainer, observed_ids(observed@))),
{
    if observed.len() == 0 {
        return ContainerPlan::Create;
    }
    if observed.len() == 1 {
        let o = &observed[0];
        proof {
            assert(attachment_names(o.networks@).no_duplicates());
        }
        let ok = opt_string_eq(&o.image, &d.image) && opt_strings_eq(&o.command, &d.command)
            && check_port_mappings(&d.ports, &o.ports) && check_network_mappings(&d.networks, &o.networks)
            && check_mount_mappings(&d.mounts, &o.mounts) && inject_label_matches(&o.inject_label, fresh)
            && secret_fingerprint_matches(&o.secret_label, prints);
        if ok {
            return ContainerPlan::Adopt { id: o.id.clone(), start: !o.running };
        }
    }
    let mut stop: Vec<String> = Vec::new();
    let mut backtrack: Vec<PostAction> = Vec::new();
    let mut finalize: Vec<PostAction> = Vec::new();
    let mut i: usize = 0;
    while i < observed.len()
        invariant
            i <= observed.len(),
            string_views(stop@) == observed_ids(observed@.subrange(0, i as int)),
            post_views(backtrack@) == tag_ids(PostKind::RestartContainer, observed_ids(observed@.subrange(0, i as int))),
            post_views(finalize@) == tag_ids(PostKind::DeleteContainer, observed_ids(observed@.subrange(0, i as int))),
        decreases observed.len() - i,
    {
        let id = &observed[i].id;
        let ghost s0 = stop@;
        let ghost b0 = backtrack@;
        let ghost f0 = finalize@;
        stop.push(id.clone());
        backtrack.push(PostAction::RestartContainer { id: id.clone() });
        finalize.push(PostAction::DeleteContainer { id: id.clone() });
        proof {
            let ids1 = observed_ids(observed@.subrange(0, i + 1));
            assert(ids1 =~= observed_ids(observed@.subrange(0, i as int)).push(id@));
            assert(string_views(stop@) =~= string_views(s0).push(id@));
            assert(post_views(backtrack@) =~= post_views(b0).push((PostKind::RestartContainer, id@)));
            assert(post_views(finalize@) =~= post_views(f0).push((PostKind::DeleteContainer, id@)));
            assert(tag_ids(PostKind::RestartContainer, ids1) =~= tag_ids(PostKind::RestartContainer, observed_ids(observed@.subrange(0, i as int))).push((PostKind::RestartContainer, id@)));
            assert(tag_ids(PostKind::DeleteContainer, ids1) =~= tag_ids(PostKind::DeleteContainer, observed_ids(observed@.subrange(0, i as int))).push((PostKind::DeleteContainer, id@)));
        }
        i += 1;
    }
    assert(observed@.subrange(0, observed.len() as int) =~= observed@);
    ContainerPlan::Replace { stop, backtrack, finalize }
}

/// The report after creating and starting a container: its deletion undoes
/// the creation if the run fails, after the restarts of the containers it
/// replaced.
pub fn container_created(backtrack: Vec<PostAction>, finalize: Vec<PostAction>, id: String) -> (r: StepOutcome)
    ensures
        r.resolved is None,
        post_views(r.backtrack@) == post_views(backtrack@).push((PostKind::DeleteContainer, id@)),
        r.finalize@ == finalize@,
        r.failure is None,
{
    let mut b = backtrack;
    let ghost b0 = b@;
    b.push(PostAction::DeleteContainer { id });
    assert(post_views(b@) =~= post_views(b0).push((PostKind::DeleteContainer, id@)));
    StepOutcome { resolved: None, backtrack: b, finalize, failure: None }
}

/// The fingerprint tree of a container's injects: a directory keyed by the
/// bytes of each destination path, holding the tree found at its source.
pub open spec fn inject_tree_model(ats: Seq<Seq<char>>, nodes: Seq<NodeModel>) -> NodeModel {
    NodeModel::Directory(Seq::new(ats.len(), |i: int| (encode_utf8(ats[i]), nodes[i])))
}

fn string_bytes(s: &String) -> (r: Vec<u8>)
    ensures
        r@ == encode_utf8(s@),
{
    let b = s.as_str().as_bytes();
    let mut r: Vec<u8> = Vec::new();
    let mut i: usize = 0;
    while i < b.len()
        invariant
            i <= b.len(),
            r@ == b@.subrange(0, i as int),
        decreases b.len() - i,
    {
        r.push(b[i]);
        assert(b@.subrange(0, i + 1) =~= b@.subrange(0, i as int).push(b@[i as int]));
        i += 1;
    }
    assert(b@.subrange(0, b.len() as int) =~= b@);
    r
}

/// Builds the fingerprint tree of the injects from the trees computed at
/// their sources, in the same order.
pub fn inject_tree(ats: &Vec<String>, nodes: Vec<InjectNode>) -> (r: InjectNode)
    requires
        ats.len() == nodes.len(),
    ensures
        model(r) == inject_tree_model(string_views(ats@), nodes@.map_values(|n: InjectNode| model(n))),
{
    let mut nodes = nodes;
    let ghost ns = nodes@;
    let mut ch: Vec<(Vec<u8>, InjectNode)> = Vec::new();
    let mut i: usize = 0;
    while i < ats.len()
        invariant
            i <= ats.len(),
            ats.len() == ns.len(),
            nodes@ == ns.subrange(i as int, ns.len() as int),
            ch.len() == i,
            forall|j: int| 0 <= j < i ==> (#[trigger] ch@[j]).0@ == encode_utf8(ats@[j]@) && model(ch@[j].1) == model(ns[j]),
        decreases ats.len() - i,
    {
        let n = nodes.remove(0);
        ch.push((string_bytes(&ats[i]), n));
        assert(nodes@ =~= ns.subrange(i + 1, ns.len() as int));
        i += 1;
    }
    proof {
        crate::fingerprint::lemma_children_model(ch@, ch@.len() as int);
        let m = children_model_of(ch@);
        assert(m =~= Seq::new(string_views(ats@).len(), |i: int| (encode_utf8(string_views(ats@)[i]), ns.map_values(|n: InjectNode| model(n))[i])));
    }
    InjectNode::Directory(ch)
}

pub open spec fn children_model_of(ch: Seq<(Vec<u8>, InjectNode)>) -> Seq<(Seq<u8>, NodeModel)> {
    crate::fingerprint::children_model(ch, ch.len() as int)
}

/// Whether `r` is the container action with each reference replaced by the
/// value the executor's tables hold for it.
pub open spec fn resolved_from(ex: Executor, a: ContainerAction, r: ResolvedContainer) -> bool {
    &&& r.name@ == a.name@
    &&& table_get(ex.resolved_images@, a.image.0) == Some(r.image@)
    &&& opt_strings(r.command) == opt_strings(a.command)
    &&& r.ports@ == a.ports@
    &&& r.networks.len() == a.networks.len()
    &&& forall|k: int| 0 <= k < a.networks.len() ==> {
        &&& table_get(ex.resolved_networks@, (#[trigger] a.networks@[k]).resolved.0) == Some(r.networks@[k].network@)
        &&& string_views(r.networks@[k].aliases@) == string_views(a.networks@[k].aliases@)
    }
    &&& r.mounts.len() == a.mounts.len()
    &&& forall|k: int| 0 <= k < a.mounts.len() ==> {
        &&& table_get(ex.resolved_volumes@, (#[trigger] a.mounts@[k]).name_ref.0) == Some(r.mounts@[k].volume@)
        &&& r.mounts@[k].destination@ == a.mounts@[k].destination@
    }
    &&& r.secrets.len() == a.secrets.len()
    &&& forall|k: int| 0 <= k < a.secrets.len() ==> {
        &&& table_get(ex.resolved_secrets@, (#[trigger] a.secrets@[k]).name_ref.0) == Some(r.secrets@[k].id@)
        &&& r.secrets@[k].target@ == a.secrets@[k].target@
    }
}

/// Whether every reference of the action has a recorded value.
pub open spec fn all_resolved(ex: Executor, a: ContainerAction) -> bool {
    &&& table_get(ex.resolved_images@, a.image.0) is Some
    &&& forall|k: int| 0 <= k < a.networks.len() ==> table_get(ex.resolved_networks@, (#[trigger] a.networks@[k]).resolved.0) is Some
    &&& forall|k: int| 0 <= k < a.mounts.len() ==> table_get(ex.resolved_volumes@, (#[trigger] a.mounts@[k]).name_ref.0) is Some
    &&& forall|k: int| 0 <= k < a.secrets.len() ==> table_get(ex.resolved_secrets@, (#[trigger] a.secrets@[k]).name_ref.0) is Some
}

fn copy_command(c: &Option<Vec<String>>) -> (r: Option<Vec<String>>)
    ensures
        opt_strings(r) == opt_strings(*c),
{
    match c {
        Some(v) => Some(crate::prepare::copy_strings(v)),
        None => None,
    }
}

/// The container action with its references replaced by the runtime
/// identifiers the executor recorded, or `None` when one is missing.
pub fn resolve_container(ex: &Executor, a: &ContainerAction) -> (r: Option<ResolvedContainer>)
    ensures
        r is Some <==> all_resolved(*ex, *a),
        match r {
            Some(rc) => resolved_from(*ex, *a, rc),
            None => true,
        },
{
    let image = match ex.resolved_image(a.image) {
        Some(v) => v,
        None => {
            return None;
        },
    };
    let mut networks: Vec<WantedNetwork> = Vec::new();
    let mut k: usize = 0;
    while k < a.networks.len()
        invariant
            k <= a.networks.len(),
            networks.len() == k,
            forall|j: int| 0 <= j < k ==> {
                &&& table_get(ex.resolved_networks@, (#[trigger] a.networks@[j]).resolved.0) == Some(networks@[j].network@)
                &&& string_views(networks@[j].aliases@) == string_views(a.networks@[j].aliases@)
            },
        decreases a.networks.len() - k,
    {
        match ex.resolved_network(a.networks[k].resolved) {
            Some(v) => networks.push(WantedNetwork { network: v, aliases: crate::prepare::copy_strings(&a.networks[k].aliases) }),
            None => {
                return None;
            },
        }
        k += 1;
    }
    let mut mounts: Vec<WantedMount> = Vec::new();
    let mut k: usize = 0;
    while k < a.mounts.len()
        invariant
            k <= a.mounts.len(),
            mounts.len() == k,
            forall|j: int| 0 <= j < k ==> {
                &&& table_get(ex.resolved_volumes@, (#[trigger] a.mounts@[j]).name_ref.0) == Some(mounts@[j].volume@)
                &&& mounts@[j].destination@ == a.mounts@[j].destination@
            },
        decreases a.mounts.len() - k,
    {
        match ex.resolved_volume(a.mounts[k].name_ref) {
            Some(v) => mounts.push(WantedMount { volume: v, destination: a.mounts[k].destination.clone() }),
            None => {
                return None;
            },
        }
        k += 1;
    }
    let mut secrets: Vec<SecretBinding> = Vec::new();
    let mut k: usize = 0;
    while k < a.secrets.len()
        invariant
            k <= a.secrets.len(),
            secrets.len() == k,
            forall|j: int| 0 <= j < k ==> {
                &&& table_get(ex.resolved_secrets@, (#[trigger] a.secrets@[j]).name_ref.0) == Some(secrets@[j].id@)
                &&& secrets@[j].target@ == a.secrets@[j].target@
            },
        decreases a.secrets.len() - k,
    {
        match ex.resolved_secret(a.secrets[k].name_ref) {
            Some(v) => secrets.push(SecretBinding { id: v, target: a.secrets[k].target.clone() }),
            None => {
                return None;
            },
        }
        k += 1;
    }
    let mut ports: Vec<ContainerActionPort> = Vec::new();
    let mut k: usize = 0;
    while k < a.ports.len()
        invariant
            k <= a.ports.len(),
            ports@ == a.ports@.subrange(0, k as int),
        decreases a.ports.len() - k,
    {
        ports.push(a.ports[k]);
        assert(ports@ =~= a.ports@.subrange(0, k + 1));
        k += 1;
    }
    assert(ports@ =~= a.ports@);
    Some(ResolvedContainer {
        name: a.name.clone(),
        image,
        command: copy_command(&a.command),
        ports,
        networks,
        mounts,
        secrets,
    })
}

/// What the runtime is asked to create for a container.
pub struct CreateRequest {
    pub image: String,
    pub ports: Vec<ContainerActionPort>,
    pub networks: Vec<WantedNetwork>,
    pub volumes: Vec<WantedMount>,
    pub command: Option<Vec<String>>,
    pub secret_env: Vec<SecretBinding>,
    pub labels: Vec<(String, String)>,
}

pub open spec fn label_views(l: Seq<(String, String)>) -> Seq<(Seq<char>, Seq<char>)> {
    l.map_values(|p: (String, String)| (p.0@, p.1@))
}

/// The labels of a created container: group and name, the inject
/// fingerprint, and the secret fingerprint when there are secrets.
pub open spec fn create_labels(group: Seq<char>, name: Seq<char>, inject: Option<Seq<char>>, secret: Option<Seq<char>>) -> Seq<(Seq<char>, Seq<char>)> {
    let base = seq![(label_key(XTug::Group), group), (label_key(XTug::Name), name)];
    let with_inject = match inject {
        Some(l) => base.push((label_key(XTug::InjectFingerprint), l)),
        None => base,
    };
    match secret {
        Some(l) => with_inject.push((label_key(XTug::SecretFingerprint), l)),
        None => with_inject,
    }
}

/// The create request of a resolved container, with its fingerprint labels.
/// `prints` are the sorted fingerprint entries of its secrets.
pub fn create_request(group: &String, d: ResolvedContainer, fresh: &InjectNode, prints: &Vec<SecretFingerprint>) -> (r: CreateRequest)
    ensures
        r.image@ == d.image@,
        r.ports@ == d.ports@,
        r.networks@ == d.networks@,
        r.volumes@ == d.mounts@,
        r.command == d.command,
        r.secret_env@ == d.secrets@,
        label_views(r.labels@) == create_labels(
            group@,
            d.name@,
            if encodable(model(*fresh)) && enc(model(*fresh)).len() <= usize::MAX / 2 {
                Some(url_safe_encoded(enc(model(*fresh))))
            } else {
                None
            },
            if prints.len() > 0 && prints_storable(prints@) {
                Some(url_safe_encoded(prints_bytes(prints@)->Some_0))
            } else {
                None
            },
        ),
{
    let mut labels: Vec<(String, String)> = Vec::new();
    labels.push((XTug::Group.to_label_string(), group.clone()));
    labels.push((XTug::Name.to_label_string(), d.name.clone()));
    let ghost l0 = labels@;
    assert(label_views(labels@) =~= seq![(label_key(XTug::Group), group@), (label_key(XTug::Name), d.name@)]);
    match encode_inject_label(fresh) {
        Some(l) => {
            labels.push((XTug::InjectFingerprint.to_label_string(), l));
        },
        None => {},
    }
    let ghost l1 = labels@;
    assert(label_views(l1) =~= create_labels(group@, d.name@,
        if encodable(model(*fresh)) && enc(model(*fresh)).len() <= usize::MAX / 2 {
            Some(url_safe_encoded(enc(model(*fresh))))
        } else {
            None
        }, None));
    if prints.len() > 0 {
        match secret_label(prints) {
            Some(l) => {
                labels.push((XTug::SecretFingerprint.to_label_string(), l));
            },
            None => {},
        }
    }
    assert(label_views(labels@) =~= create_labels(group@, d.name@,
        if encodable(model(*fresh)) && enc(model(*fresh)).len() <= usize::MAX / 2 {
            Some(url_safe_encoded(enc(model(*fresh))))
        } else {
            None
        },
        if prints.len() > 0 && prints_storable(prints@) {
            Some(url_safe_encoded(prints_bytes(prints@)->Some_0))
        } else {
            None
        }));
    CreateRequest {
        image: d.image,
        ports: d.ports,
        networks: d.networks,
        volumes: d.mounts,
        command: d.command,
        secret_env: d.secrets,
        labels,
    }
}

/// For a single attachment to the desired network, the check accepts it
/// exactly when its aliases equal the desired ones or the two alias sets
/// differ by at most one element.
pub proof fn lemma_alias_tolerance(w: WantedNetwork, a: RemoteAttachment)
    requires
        a.network@ == w.network@,
    ensures
        networks_match(seq![w], seq![a]) <==> aliases_close(remote_aliases(a), string_views(w.aliases@)),
{
    let ws = seq![w];
    let as_ = seq![a];
    assert(wanted_names(ws) =~= seq![w.network@]);
    if aliases_close(remote_aliases(a), string_views(w.aliases@)) {
        assert(has_close_attachment(ws[0], as_)) by {
            assert(as_[0] == a);
        }
        assert(matched_upto(ws, as_, 1));
    }
    if networks_match(ws, as_) {
        assert(has_close_attachment(ws[0], as_));
    }
}

/// Re-running on an unchanged container keeps it: a container whose image,
/// command, ports, networks and mounts are the desired ones, whose inject
/// label holds the current fingerprint tree and whose secret label holds
/// the current secret entries (and is absent without secrets) can be
/// adopted, so no container is created, stopped or started when it runs.
pub proof fn lemma_unchanged_container_adoptable(
    d: ResolvedContainer,
    o: ObservedContainer,
    fresh: NodeModel,
    prints: Seq<SecretFingerprint>,
)
    requires
        opt_view(o.image) == Some(d.image@),
        opt_strings(o.command) == opt_strings(d.command),
        remote_port_keys(o.ports@) == wanted_port_keys(d.ports@),
        remote_mount_keys(o.mounts@) == wanted_mount_keys(d.mounts@),
        o.networks.len() == d.networks.len(),
        forall|k: int| 0 <= k < d.networks.len() ==> (#[trigger] o.networks@[k]).network@ == d.networks@[k].network@
            && remote_aliases(o.networks@[k]) == Some(string_views(d.networks@[k].aliases@)),
        wanted_names(d.networks@).no_duplicates(),
        o.inject_label matches Some(l) && label_tree(l@) == Some(fresh),
        keys_distinct(fresh),
        prints.len() == 0 ==> o.secret_label is None,
        prints.len() > 0 ==> (o.secret_label matches Some(l) && prints_bytes(prints) is Some && crate::fingerprint::url_safe_decoded(l@) == prints_bytes(prints)),
    ensures
        adoptable(d, o, fresh, prints),
{
    lemma_same_reflexive(fresh);
    assert forall|k: int| 0 <= k < d.networks.len() implies has_close_attachment(#[trigger] d.networks@[k], o.networks@) by {
        assert(o.networks@[k].network@ == d.networks@[k].network@);
        assert(aliases_close(remote_aliases(o.networks@[k]), string_views(d.networks@[k].aliases@)));
        assert(0 <= k < o.networks.len() && o.networks@[k].network@ == d.networks@[k].network@ && aliases_close(
            remote_aliases(o.networks@[k]),
            string_views(d.networks@[k].aliases@),
        ));
    }
    assert(matched_upto(d.networks@, o.networks@, d.networks.len() as int));
    assert(networks_match(d.networks@, o.networks@));
    assert(wanted_port_keys(d.ports@).to_multiset() == remote_port_keys(o.ports@).to_multiset());
    assert(structure_matches(d, o));
    assert(inject_matches(o.inject_label, fresh));
    assert(secrets_match(o.secret_label, prints));
}

} // verus!
