use vstd::prelude::*;
use vstd::string::StringSliceAdditionalSpecFns;

verus! {

/// Transport protocol of a port mapping.
#[derive(PartialEq, Eq, Structural, Clone, Copy, Debug, Hash)]
pub enum ParsedProtocol {
    Tcp,
    Udp,
}

pub open spec fn protocol_text(p: ParsedProtocol) -> Seq<char> {
    match p {
        ParsedProtocol::Tcp => "tcp"@,
        ParsedProtocol::Udp => "udp"@,
    }
}

impl ParsedProtocol {
    pub fn as_str(&self) -> (r: &'static str)
        ensures
            r@ == protocol_text(*self),
    {
        proof {
            reveal_strlit("tcp");
            reveal_strlit("udp");
        }
        match self {
            ParsedProtocol::Tcp => "tcp",
            ParsedProtocol::Udp => "udp",
        }
    }

    pub fn to_protocol_string(&self) -> (r: String)
        ensures
            r@ == protocol_text(*self),
    {
        self.as_str().to_owned()
    }
}

/// An explicit port declaration.
#[derive(PartialEq, Eq, Structural, Clone, Copy, Debug)]
pub struct ParsedExplicitContainerPort {
    pub container: u16,
    pub host: u16,
    pub protocol: ParsedProtocol,
}

/// A port declaration: one number publishes the same port over tcp.
#[derive(PartialEq, Eq, Structural, Clone, Copy, Debug)]
pub enum ParsedContainerPort {
    Shorthand(u16),
    Explicit(ParsedExplicitContainerPort),
}

/// Kind of a container mount.
#[derive(PartialEq, Eq, Structural, Clone, Copy, Debug)]
pub enum ParsedContainerMountType {
    Volume,
}

/// Whether a file name designates a configuration document: its last two
/// dot-separated segments are `tug` and `kdl`.
pub open spec fn is_document_name(b: Seq<u8>) -> bool {
    let n = b.len();
    &&& n >= 7
    &&& b.subrange(n - 7, n as int) == seq![116u8, 117u8, 103u8, 46u8, 107u8, 100u8, 108u8]
    &&& (n == 7 || b[n - 8] == 46u8)
}

pub fn is_tugy(file_name: &str) -> (r: bool)
    ensures
        r == is_document_name(file_name.spec_bytes()),
{
    let b = file_name.as_bytes();
    let n = b.len();
    if n < 7 {
        return false;
    }
    let suffix: [u8; 7] = [116u8, 117u8, 103u8, 46u8, 107u8, 100u8, 108u8];
    let mut i: usize = 0;
    while i < 7
        invariant
            n == b@.len(),
            n >= 7,
            i <= 7,
            b@ == file_name.spec_bytes(),
            suffix@ == seq![116u8, 117u8, 103u8, 46u8, 107u8, 100u8, 108u8],
            forall|j: int| 0 <= j < i ==> b@[n - 7 + j] == suffix@[j],
        decreases 7 - i,
    {
        if b[n - 7 + i] != suffix[i] {
            proof {
                assert(b@.subrange(n - 7, n as int)[i as int] != suffix@[i as int]);
            }
            return false;
        }
        i += 1;
    }
    assert(b@.subrange(n - 7, n as int) =~= suffix@);
    n == 7 || b[n - 8] == 46u8
}

/// Where a value was written in a configuration document.
#[derive(Clone, Debug)]
pub struct ParseSpan {
    pub file: String,
    pub start: usize,
    pub end: usize,
}

impl View for ParseSpan {
    type V = (Seq<char>, usize, usize);

    open spec fn view(&self) -> (Seq<char>, usize, usize) {
        (self.file@, self.start, self.end)
    }
}

impl ParseSpan {
    /// A copy of the span.
    pub fn duplicate(&self) -> (r: ParseSpan)
        ensures
            r@ == self@,
    {
        ParseSpan { file: self.file.clone(), start: self.start, end: self.end }
    }
}

/// A value together with the place it was written.
#[derive(Clone, Debug)]
pub struct Spanned {
    pub value: String,
    pub span: ParseSpan,
}

impl Spanned {
    /// A copy of the value and its span.
    pub fn duplicate(&self) -> (r: Spanned)
        ensures
            r.value@ == self.value@,
            r.span@ == self.span@,
    {
        Spanned { value: self.value.clone(), span: self.span.duplicate() }
    }
}

/// The abstract document: four lists of named entities.
pub struct ParsedDocument {
    pub images: Vec<ParsedImage>,
    pub containers: Vec<ParsedContainer>,
    pub networks: Vec<ParsedNetwork>,
    pub volumes: Vec<ParsedVolume>,
}

pub struct ParsedImage {
    pub name: Spanned,
    pub reference: Spanned,
    /// Images marked local are never pulled.
    pub local: bool,
}

pub struct ParsedContainer {
    pub name: Spanned,
    pub image: Spanned,
    pub command: Option<Spanned>,
    pub ports: Vec<ParsedContainerPort>,
    pub injects: Vec<ParsedContainerInject>,
    pub networks: Vec<ParsedContainerNetwork>,
    pub mounts: Vec<ParsedContainerMount>,
    pub secrets: Vec<ParsedContainerSecret>,
}

/// A host file tree copied to `at` inside the container.
pub struct ParsedContainerInject {
    pub at: Spanned,
    pub path: String,
}

pub struct ParsedContainerNetwork {
    pub name: Spanned,
    pub aliases: Vec<String>,
}

pub struct ParsedContainerMount {
    pub kind: ParsedContainerMountType,
    pub name: Spanned,
    pub destination: String,
}

/// A secret exposed to the container as the environment variable `target`
/// (its own name when absent).
pub struct ParsedContainerSecret {
    pub name: Spanned,
    pub target: Option<String>,
}

pub struct ParsedNetwork {
    pub name: Spanned,
    pub dns_enabled: bool,
    pub internal: bool,
    pub driver: String,
}

pub struct ParsedVolume {
    pub name: Spanned,
    pub driver: String,
}

} // verus!
