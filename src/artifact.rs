//! Artifact identifiers and the texts derived from them.
use vstd::prelude::*;
use vstd::string::StringExecFns;

verus! {

/// One published artifact: a package name and one of its versions.
#[derive(Clone, Debug, PartialEq, Eq, Hash)]
pub struct Version {
    pub name: String,
    pub vers: String,
}

/// The download address of the artifact `name` at version `vers`.
pub open spec fn url_of(name: Seq<char>, vers: Seq<char>) -> Seq<char> {
    "https://static.crates.io/crates/"@ + name + "/"@ + name + "-"@ + vers + ".crate"@
}

/// How an artifact is named in a report line: `name (vers)`.
pub open spec fn label_of(name: Seq<char>, vers: Seq<char>) -> Seq<char> {
    name + " ("@ + vers + ")"@
}

impl Version {
    pub fn new(name: String, vers: String) -> (r: Version)
        ensures
            r.name@ == name@,
            r.vers@ == vers@,
    {
        Version { name, vers }
    }

    /// The address of this artifact's download, which a probe asks for.
    pub fn metadata_url(&self) -> (r: String)
        ensures
            r@ == url_of(self.name@, self.vers@),
    {
        let mut r = "https://static.crates.io/crates/".to_string();
        r.append(self.name.as_str());
        r.append("/");
        r.append(self.name.as_str());
        r.append("-");
        r.append(self.vers.as_str());
        r.append(".crate");
        proof {
            reveal_strlit("https://static.crates.io/crates/");
        }
        r
    }

    /// The label of this artifact in report lines.
    pub fn label(&self) -> (r: String)
        ensures
            r@ == label_of(self.name@, self.vers@),
    {
        let mut r = self.name.clone();
        r.append(" (");
        r.append(self.vers.as_str());
        r.append(")");
        r
    }
}

} // verus!
