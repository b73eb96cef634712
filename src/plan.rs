use vstd::prelude::*;
use crate::model::{ParseSpan, ParsedContainerMountType, ParsedProtocol, Spanned};

verus! {

/// Handle of a declared image; its step is the producer of the image ID.
#[derive(PartialEq, Eq, Structural, Clone, Copy, Debug, Hash, PartialOrd, Ord)]
pub struct ResolvedImageRef(pub usize);

/// Handle of a declared network.
#[derive(PartialEq, Eq, Structural, Clone, Copy, Debug, Hash, PartialOrd, Ord)]
pub struct ResolvedNetworkRef(pub usize);

/// Handle of a declared volume.
#[derive(PartialEq, Eq, Structural, Clone, Copy, Debug, Hash, PartialOrd, Ord)]
pub struct ResolvedVolumeRef(pub usize);

/// Handle of a secret referenced by some container.
#[derive(PartialEq, Eq, Structural, Clone, Copy, Debug, Hash, PartialOrd, Ord)]
pub struct ResolvedSecretRef(pub usize);

#[derive(Clone, Debug)]
pub struct ImageAction {
    pub resolved: ResolvedImageRef,
    pub name: String,
    pub reference: String,
    pub reference_span: ParseSpan,
    pub local: bool,
}

#[derive(Clone, Debug)]
pub struct NetworkAction {
    pub name: String,
    pub dns_enabled: bool,
    pub internal: bool,
    pub driver: String,
    pub resolved: ResolvedNetworkRef,
}

#[derive(Clone, Debug)]
pub struct VolumeAction {
    pub name: String,
    pub driver: String,
    pub resolved: ResolvedVolumeRef,
}

#[derive(Clone, Debug)]
pub struct SecretAction {
    pub resolved: ResolvedSecretRef,
    pub name: Spanned,
}

#[derive(Clone, Debug)]
pub struct GarbageAction {
    pub container_names: Vec<String>,
}

#[derive(PartialEq, Eq, Structural, Clone, Copy, Debug)]
pub struct ContainerActionPort {
    pub container: u16,
    pub host: u16,
    pub protocol: ParsedProtocol,
}

#[derive(Clone, Debug)]
pub struct ContainerActionNetwork {
    pub resolved: ResolvedNetworkRef,
    pub aliases: Vec<String>,
}

#[derive(Clone, Debug)]
pub struct ContainerActionMount {
    pub kind: ParsedContainerMountType,
    pub name_ref: ResolvedVolumeRef,
    pub destination: String,
}

#[derive(Clone, Debug)]
pub struct ContainerActionSecret {
    pub name_ref: ResolvedSecretRef,
    pub target: String,
}

/// A file tree copied into a container after creation.
#[derive(Clone, Debug)]
pub struct ContainerActionInject {
    /// Destination path inside the container.
    pub at: String,
    /// Source path on the host, relative to the document directory.
    pub path: String,
}

#[derive(Clone, Debug)]
pub struct ContainerAction {
    pub name: String,
    pub command: Option<Vec<String>>,
    pub image: ResolvedImageRef,
    pub ports: Vec<ContainerActionPort>,
    pub injects: Vec<ContainerActionInject>,
    pub networks: Vec<ContainerActionNetwork>,
    pub mounts: Vec<ContainerActionMount>,
    pub secrets: Vec<ContainerActionSecret>,
}

/// The typed payload of a step.
#[derive(Clone, Debug)]
pub enum Action {
    Container(ContainerAction),
    Image(ImageAction),
    Garbage(GarbageAction),
    Network(NetworkAction),
    Volume(VolumeAction),
    Secret(SecretAction),
}

#[derive(PartialEq, Eq, Structural, Clone, Copy, Debug)]
pub enum StepStatus {
    Queued,
    Running,
    Complete,
}

/// A compensating or deferred operation on one runtime resource.
#[derive(Clone, Debug)]
pub enum PostAction {
    DeleteContainer { id: String },
    RestartContainer { id: String },
    DeleteNetwork { id: String },
    DeleteVolume { name: String },
}

/// Plain view of a post-action: its kind and the identifier it addresses.
#[derive(PartialEq, Eq, Structural, Clone, Copy, Debug)]
pub enum PostKind {
    DeleteContainer,
    RestartContainer,
    DeleteNetwork,
    DeleteVolume,
}

impl View for PostAction {
    type V = (PostKind, Seq<char>);

    open spec fn view(&self) -> (PostKind, Seq<char>) {
        match self {
            PostAction::DeleteContainer { id } => (PostKind::DeleteContainer, id@),
            PostAction::RestartContainer { id } => (PostKind::RestartContainer, id@),
            PostAction::DeleteNetwork { id } => (PostKind::DeleteNetwork, id@),
            PostAction::DeleteVolume { name } => (PostKind::DeleteVolume, name@),
        }
    }
}

pub open spec fn post_views(s: Seq<PostAction>) -> Seq<(PostKind, Seq<char>)> {
    s.map_values(|p: PostAction| p@)
}

/// Whether a step's action produces a resolved reference that the container
/// action reads.
pub open spec fn consumes(c: ContainerAction, producer: Action) -> bool {
    match producer {
        Action::Image(a) => a.resolved == c.image,
        Action::Network(a) => exists|k: int| 0 <= k < c.networks.len() && #[trigger] c.networks@[k].resolved == a.resolved,
        Action::Volume(a) => exists|k: int| 0 <= k < c.mounts.len() && #[trigger] c.mounts@[k].name_ref == a.resolved,
        Action::Secret(a) => exists|k: int| 0 <= k < c.secrets.len() && #[trigger] c.secrets@[k].name_ref == a.resolved,
        _ => false,
    }
}

} // verus!
