use vstd::prelude::*;

verus! {

/// The label keys written on every resource this tool creates.
#[derive(PartialEq, Eq, Structural, Clone, Copy, Debug, Hash)]
pub enum XTug {
    Name,
    Group,
    InjectFingerprint,
    SecretFingerprint,
}

/// The literal text of a label key.
pub open spec fn label_key(k: XTug) -> Seq<char> {
    match k {
        XTug::Name => "X-Tug-Name"@,
        XTug::Group => "X-Tug-Group"@,
        XTug::InjectFingerprint => "X-Tug-Inject-Fingerprint"@,
        XTug::SecretFingerprint => "X-Tug-Secret-Fingerprint"@,
    }
}

impl XTug {
    pub fn as_str(&self) -> (r: &'static str)
        ensures
            r@ == label_key(*self),
    {
        proof {
            reveal_strlit("X-Tug-Name");
            reveal_strlit("X-Tug-Group");
            reveal_strlit("X-Tug-Inject-Fingerprint");
            reveal_strlit("X-Tug-Secret-Fingerprint");
        }
        match self {
            XTug::Name => "X-Tug-Name",
            XTug::Group => "X-Tug-Group",
            XTug::InjectFingerprint => "X-Tug-Inject-Fingerprint",
            XTug::SecretFingerprint => "X-Tug-Secret-Fingerprint",
        }
    }

    pub fn to_label_string(&self) -> (r: String)
        ensures
            r@ == label_key(*self),
    {
        self.as_str().to_owned()
    }
}

/// The group used when the configuration names none.
pub open spec fn spec_default_group() -> Seq<char> {
    "default"@
}

pub fn default_group() -> (r: String)
    ensures
        r@ == spec_default_group(),
{
    proof {
        reveal_strlit("default");
    }
    "default".to_owned()
}

/// Connection and tenancy settings of one invocation.
pub struct Config {
    /// Address of the container runtime's API.
    pub service: String,
    /// Group label value written on every resource.
    pub group: String,
}

impl Config {
    /// A configuration; a missing group falls back to the default one.
    pub fn new(service: String, group: Option<String>) -> (r: Config)
        ensures
            r.service@ == service@,
            r.group@ == match group {
                Some(g) => g@,
                None => spec_default_group(),
            },
    {
        let group = match group {
            Some(g) => g,
            None => default_group(),
        };
        Config { service, group }
    }
}

} // verus!
