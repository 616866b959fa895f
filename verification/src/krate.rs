//! A generated package: its manifest and its files.
//!
//! The manifest renders to manifest text deterministically: scalar entries
//! first, then one subtable per table-valued entry, each map in its stored
//! (sorted) order.  Values are written verbatim: names and versions here are
//! plain identifier-like strings that need no escaping.

use vstd::prelude::*;

use crate::filemap::{FileMap, fm_insert};

verus! {

/// A manifest value that is either a literal string or the marker that the
/// value is inherited from the workspace.
#[derive(Debug, Clone, PartialEq, Eq)]
pub enum StringOrWorkspace {
    String(String),
    Workspace,
}

impl StringOrWorkspace {
    /// The marker that the value is inherited from the workspace.
    pub fn workspace() -> (r: StringOrWorkspace)
        ensures
            r == StringOrWorkspace::Workspace,
    {
        StringOrWorkspace::Workspace
    }

    /// A literal string value.
    pub fn string(string: &str) -> (r: StringOrWorkspace)
        ensures
            r matches StringOrWorkspace::String(s) && s@ == string@,
    {
        StringOrWorkspace::String(string.to_owned())
    }
}

/// The marker that a value is inherited from the workspace.
pub fn workspace() -> (r: Option<StringOrWorkspace>)
    ensures
        r == Some(StringOrWorkspace::Workspace),
{
    Some(StringOrWorkspace::Workspace)
}

/// One dependency of a generated package.
#[derive(Debug, Clone, PartialEq, Eq)]
pub enum Dependency {
    Default,
    Version(String),
    Full(DependencyFull),
}

/// A dependency written out field by field; absent fields are omitted.
#[derive(Debug, Clone, PartialEq, Eq, Default)]
pub struct DependencyFull {
    pub version: Option<String>,
    pub package: Option<String>,
    pub path: Option<String>,
    pub git: Option<String>,
    pub optional: Option<bool>,
    pub default_features: Option<bool>,
    pub features: Option<Vec<String>>,
    pub workspace: Option<bool>,
}

/// The `[package]` section of a manifest.
#[derive(Debug, Clone, PartialEq, Eq, Default)]
pub struct Package {
    pub name: String,
    pub edition: Option<StringOrWorkspace>,
    pub license: Option<StringOrWorkspace>,
    pub rust_version: Option<StringOrWorkspace>,
}

impl Package {
    fn new(name: &str) -> (r: Package)
        ensures
            r.name@ == name@,
            r.edition is None,
            r.license is None,
            r.rust_version is None,
    {
        Package {
            name: name.to_owned(),
            edition: None,
            license: None,
            rust_version: None,
        }
    }
}

/// A whole manifest: package metadata, dependencies and feature lists, the
/// two maps sorted by name.
#[derive(Debug, Clone, PartialEq, Eq, Default)]
pub struct Manifest {
    pub package: Package,
    pub dependencies: Vec<(String, Dependency)>,
    pub features: Vec<(String, Vec<String>)>,
}

impl Manifest {
    /// An empty manifest for the package `name`.
    pub fn new(name: &str) -> (r: Manifest)
        ensures
            r.package.name@ == name@,
            r.package.edition is None,
            r.package.license is None,
            r.package.rust_version is None,
            r.dependencies@.len() == 0,
            r.features@.len() == 0,
    {
        Manifest { package: Package::new(name), dependencies: Vec::new(), features: Vec::new() }
    }
}

/// `s` between double quotes.
pub open spec fn spec_quoted(s: Seq<char>) -> Seq<char> {
    "\""@ + s + "\""@
}

/// A list of quoted strings between brackets, comma-separated.
pub open spec fn spec_str_list(items: Seq<String>) -> Seq<char>
    decreases items.len(),
{
    if items.len() == 0 {
        Seq::empty()
    } else if items.len() == 1 {
        spec_quoted(items[0]@)
    } else {
        spec_str_list(items.drop_last()) + ", "@ + spec_quoted(items.last()@)
    }
}

/// `key = "value"` under the `[package]` section, for a literal value; a
/// workspace-inherited value renders as a subtable instead.
pub open spec fn spec_pkg_scalar(key: Seq<char>, v: Option<StringOrWorkspace>) -> Seq<char> {
    match v {
        Some(StringOrWorkspace::String(s)) => key + " = "@ + spec_quoted(s@) + "\n"@,
        _ => Seq::empty(),
    }
}

/// The `[package.<key>]` subtable for a workspace-inherited value.
pub open spec fn spec_pkg_table(key: Seq<char>, v: Option<StringOrWorkspace>) -> Seq<char> {
    match v {
        Some(StringOrWorkspace::Workspace) => "\n[package."@ + key + "]\nworkspace = true\n"@,
        _ => Seq::empty(),
    }
}

/// The scalar dependency lines: one `name = "version"` line per
/// version-only dependency, in map order.
pub open spec fn spec_dep_scalars(deps: Seq<(String, Dependency)>) -> Seq<char>
    decreases deps.len(),
{
    if deps.len() == 0 {
        Seq::empty()
    } else {
        spec_dep_scalars(deps.drop_last()) + (match deps.last().1 {
            Dependency::Version(v) => deps.last().0@ + " = "@ + spec_quoted(v@) + "\n"@,
            _ => Seq::empty(),
        })
    }
}

/// Whether any dependency is version-only.
pub open spec fn spec_has_dep_scalar(deps: Seq<(String, Dependency)>) -> bool {
    exists|i: int| 0 <= i < deps.len() && deps[i].1 is Version
}

/// The source-location lines of one written-out dependency.
pub open spec fn spec_dep_full_head(d: DependencyFull) -> Seq<char> {
    (match d.version {
        Some(v) => "version = "@ + spec_quoted(v@) + "\n"@,
        None => Seq::empty(),
    }) + (match d.package {
        Some(v) => "package = "@ + spec_quoted(v@) + "\n"@,
        None => Seq::empty(),
    }) + (match d.path {
        Some(v) => "path = "@ + spec_quoted(v@) + "\n"@,
        None => Seq::empty(),
    }) + (match d.git {
        Some(v) => "git = "@ + spec_quoted(v@) + "\n"@,
        None => Seq::empty(),
    })
}

/// The flag and feature lines of one written-out dependency.
pub open spec fn spec_dep_full_tail(d: DependencyFull) -> Seq<char> {
    (match d.optional {
        Some(b) => "optional = "@ + spec_bool(b) + "\n"@,
        None => Seq::empty(),
    }) + (match d.default_features {
        Some(b) => "default_features = "@ + spec_bool(b) + "\n"@,
        None => Seq::empty(),
    }) + (match d.features {
        Some(items) => "features = ["@ + spec_str_list(items@) + "]\n"@,
        None => Seq::empty(),
    }) + (match d.workspace {
        Some(b) => "workspace = "@ + spec_bool(b) + "\n"@,
        None => Seq::empty(),
    })
}

/// The body lines of one written-out dependency, absent fields omitted.
pub open spec fn spec_dep_full(d: DependencyFull) -> Seq<char> {
    spec_dep_full_head(d) + spec_dep_full_tail(d)
}

/// `true` or `false`.
pub open spec fn spec_bool(b: bool) -> Seq<char> {
    if b {
        "true"@
    } else {
        "false"@
    }
}

/// The dependency subtables: one `[dependencies.<name>]` table per
/// non-scalar dependency, in map order.
pub open spec fn spec_dep_tables(deps: Seq<(String, Dependency)>) -> Seq<char>
    decreases deps.len(),
{
    if deps.len() == 0 {
        Seq::empty()
    } else {
        spec_dep_tables(deps.drop_last()) + (match deps.last().1 {
            Dependency::Version(_) => Seq::empty(),
            Dependency::Default => "\n[dependencies."@ + deps.last().0@ + "]\n"@,
            Dependency::Full(d) => "\n[dependencies."@ + deps.last().0@ + "]\n"@ + spec_dep_full(
                d,
            ),
        })
    }
}

/// The `[features]` section: one `name = [..]` line per feature, in map
/// order; nothing when no feature is declared.
pub open spec fn spec_features(features: Seq<(String, Vec<String>)>) -> Seq<char>
    decreases features.len(),
{
    if features.len() == 0 {
        Seq::empty()
    } else {
        spec_features(features.drop_last()) + features.last().0@ + " = ["@ + spec_str_list(
            features.last().1@,
        ) + "]\n"@
    }
}

/// The manifest text: the package section, then one subtable per
/// workspace-inherited package value, then the dependencies, then the
/// features.
pub open spec fn spec_manifest_toml(m: Manifest) -> Seq<char> {
    "[package]\nname = "@ + spec_quoted(m.package.name@) + "\n"@ + spec_pkg_scalar(
        "edition"@,
        m.package.edition,
    ) + spec_pkg_scalar("license"@, m.package.license) + spec_pkg_scalar(
        "rust-version"@,
        m.package.rust_version,
    ) + spec_pkg_table("edition"@, m.package.edition) + spec_pkg_table(
        "license"@,
        m.package.license,
    ) + spec_pkg_table("rust-version"@, m.package.rust_version) + (if spec_has_dep_scalar(
        m.dependencies@,
    ) {
        "\n[dependencies]\n"@ + spec_dep_scalars(m.dependencies@)
    } else {
        Seq::empty()
    }) + spec_dep_tables(m.dependencies@) + (if m.features@.len() > 0 {
        "\n[features]\n"@ + spec_features(m.features@)
    } else {
        Seq::empty()
    })
}

fn push_quoted(out: &mut String, s: &str)
    ensures
        final(out)@ == old(out)@ + spec_quoted(s@),
{
    out.append("\"");
    out.append(s);
    out.append("\"");
    proof {
        assert(out@ =~= old(out)@ + spec_quoted(s@));
    }
}

fn push_bool(out: &mut String, b: bool)
    ensures
        final(out)@ == old(out)@ + spec_bool(b),
{
    if b {
        out.append("true");
    } else {
        out.append("false");
    }
}

fn push_str_list(out: &mut String, items: &Vec<String>)
    ensures
        final(out)@ == old(out)@ + spec_str_list(items@),
{
    let ghost base = old(out)@;
    let n = items.len();
    let mut i: usize = 0;
    proof {
        assert(items@.take(0) =~= Seq::<String>::empty());
        assert(out@ =~= base + spec_str_list(items@.take(0)));
    }
    while i < n
        invariant
            i <= n,
            n == items@.len(),
            out@ == base + spec_str_list(items@.take(i as int)),
        decreases n - i,
    {
        proof {
            crate::strutil::lemma_take_push(items@, i as int);
            assert(items@.take(i + 1).drop_last() =~= items@.take(i as int));
            assert(items@.take(i + 1).last() == items@[i as int]);
        }
        if i > 0 {
            out.append(", ");
        }
        let e = &items[i];
        push_quoted(out, e.as_str());
        proof {
            if i == 0 {
                assert(items@.take(1).len() == 1);
                assert(out@ =~= base + spec_str_list(items@.take(1)));
            } else {
                assert(out@ =~= base + spec_str_list(items@.take(i + 1)));
            }
        }
        i += 1;
    }
    proof {
        assert(items@.take(n as int) =~= items@);
    }
}

fn push_pkg_scalar(out: &mut String, key: &str, v: &Option<StringOrWorkspace>)
    ensures
        final(out)@ == old(out)@ + spec_pkg_scalar(key@, *v),
{
    match v {
        Some(StringOrWorkspace::String(s)) => {
            out.append(key);
            out.append(" = ");
            push_quoted(out, s.as_str());
            out.append("\n");
            proof {
                assert(out@ =~= old(out)@ + spec_pkg_scalar(key@, *v));
            }
        },
        _ => {
        },
    }
}

fn push_pkg_table(out: &mut String, key: &str, v: &Option<StringOrWorkspace>)
    ensures
        final(out)@ == old(out)@ + spec_pkg_table(key@, *v),
{
    match v {
        Some(StringOrWorkspace::Workspace) => {
            out.append("\n[package.");
            out.append(key);
            out.append("]\nworkspace = true\n");
            proof {
                assert(out@ =~= old(out)@ + spec_pkg_table(key@, *v));
            }
        },
        _ => {
        },
    }
}

fn push_dep_full_head(out: &mut String, d: &DependencyFull)
    ensures
        final(out)@ == old(out)@ + spec_dep_full_head(*d),
{
    let ghost s1 = match &d.version {
        Some(v) => "version = "@ + spec_quoted(v@) + "\n"@,
        None => Seq::<char>::empty(),
    };
    let ghost s2 = match &d.package {
        Some(v) => "package = "@ + spec_quoted(v@) + "\n"@,
        None => Seq::<char>::empty(),
    };
    let ghost s3 = match &d.path {
        Some(v) => "path = "@ + spec_quoted(v@) + "\n"@,
        None => Seq::<char>::empty(),
    };
    let ghost s4 = match &d.git {
        Some(v) => "git = "@ + spec_quoted(v@) + "\n"@,
        None => Seq::<char>::empty(),
    };
    let ghost c0 = out@;
    if let Some(v) = &d.version {
        out.append("version = ");
        push_quoted(out, v.as_str());
        out.append("\n");
    }
    proof {
        assert(out@ =~= c0 + s1);
    }
    let ghost c1 = out@;
    if let Some(v) = &d.package {
        out.append("package = ");
        push_quoted(out, v.as_str());
        out.append("\n");
    }
    proof {
        assert(out@ =~= c1 + s2);
    }
    let ghost c2 = out@;
    if let Some(v) = &d.path {
        out.append("path = ");
        push_quoted(out, v.as_str());
        out.append("\n");
    }
    proof {
        assert(out@ =~= c2 + s3);
    }
    let ghost c3 = out@;
    if let Some(v) = &d.git {
        out.append("git = ");
        push_quoted(out, v.as_str());
        out.append("\n");
    }
    proof {
        assert(out@ =~= c3 + s4);
        crate::strutil::lemma_cat4(c0, s1, s2, s3, s4);
        assert(spec_dep_full_head(*d) == ((s1 + s2) + s3) + s4);
        assert(out@ == c0 + spec_dep_full_head(*d));
    }
}

fn push_dep_full_tail(out: &mut String, d: &DependencyFull)
    ensures
        final(out)@ == old(out)@ + spec_dep_full_tail(*d),
{
    let ghost s1 = match &d.optional {
        Some(b) => "optional = "@ + spec_bool(*b) + "\n"@,
        None => Seq::<char>::empty(),
    };
    let ghost s2 = match &d.default_features {
        Some(b) => "default_features = "@ + spec_bool(*b) + "\n"@,
        None => Seq::<char>::empty(),
    };
    let ghost s3 = match &d.features {
        Some(items) => "features = ["@ + spec_str_list(items@) + "]\n"@,
        None => Seq::<char>::empty(),
    };
    let ghost s4 = match &d.workspace {
        Some(b) => "workspace = "@ + spec_bool(*b) + "\n"@,
        None => Seq::<char>::empty(),
    };
    let ghost c0 = out@;
    if let Some(b) = &d.optional {
        out.append("optional = ");
        push_bool(out, *b);
        out.append("\n");
    }
    proof {
        assert(out@ =~= c0 + s1);
    }
    let ghost c1 = out@;
    if let Some(b) = &d.default_features {
        out.append("default_features = ");
        push_bool(out, *b);
        out.append("\n");
    }
    proof {
        assert(out@ =~= c1 + s2);
    }
    let ghost c2 = out@;
    if let Some(items) = &d.features {
        out.append("features = [");
        push_str_list(out, items);
        out.append("]\n");
    }
    proof {
        assert(out@ =~= c2 + s3);
    }
    let ghost c3 = out@;
    if let Some(b) = &d.workspace {
        out.append("workspace = ");
        push_bool(out, *b);
        out.append("\n");
    }
    proof {
        assert(out@ =~= c3 + s4);
        crate::strutil::lemma_cat4(c0, s1, s2, s3, s4);
        assert(spec_dep_full_tail(*d) == ((s1 + s2) + s3) + s4);
        assert(out@ == c0 + spec_dep_full_tail(*d));
    }
}

fn push_dep_full(out: &mut String, d: &DependencyFull)
    ensures
        final(out)@ == old(out)@ + spec_dep_full(*d),
{
    push_dep_full_head(out, d);
    push_dep_full_tail(out, d);
    proof {
        assert(out@ =~= old(out)@ + spec_dep_full(*d));
    }
}

/// The manifest rendered as manifest text.
pub fn manifest_toml(m: &Manifest) -> (r: String)
    ensures
        r@ == spec_manifest_toml(*m),
{
    let mut out = String::new();
    out.append("[package]\nname = ");
    push_quoted(&mut out, m.package.name.as_str());
    out.append("\n");
    push_pkg_scalar(&mut out, "edition", &m.package.edition);
    push_pkg_scalar(&mut out, "license", &m.package.license);
    push_pkg_scalar(&mut out, "rust-version", &m.package.rust_version);
    push_pkg_table(&mut out, "edition", &m.package.edition);
    push_pkg_table(&mut out, "license", &m.package.license);
    push_pkg_table(&mut out, "rust-version", &m.package.rust_version);
    let ghost head = out@;
    let mut has_scalar = false;
    let n = m.dependencies.len();
    let mut i: usize = 0;
    while i < n
        invariant
            i <= n,
            n == m.dependencies@.len(),
            has_scalar == exists|j: int| 0 <= j < i && m.dependencies@[j].1 is Version,
        decreases n - i,
    {
        let e = &m.dependencies[i];
        match &e.1 {
            Dependency::Version(_) => {
                has_scalar = true;
            },
            _ => {
            },
        }
        i += 1;
    }
    proof {
        assert(has_scalar == spec_has_dep_scalar(m.dependencies@));
    }
    if has_scalar {
        out.append("\n[dependencies]\n");
        let ghost base = out@;
        let mut i: usize = 0;
        proof {
            assert(m.dependencies@.take(0) =~= Seq::<(String, Dependency)>::empty());
            assert(out@ =~= base + spec_dep_scalars(m.dependencies@.take(0)));
        }
        while i < n
            invariant
                i <= n,
                n == m.dependencies@.len(),
                out@ == base + spec_dep_scalars(m.dependencies@.take(i as int)),
            decreases n - i,
        {
            proof {
                crate::strutil::lemma_take_push(m.dependencies@, i as int);
                assert(m.dependencies@.take(i + 1).drop_last() =~= m.dependencies@.take(i as int));
                assert(m.dependencies@.take(i + 1).last() == m.dependencies@[i as int]);
            }
            let e = &m.dependencies[i];
            match &e.1 {
                Dependency::Version(v) => {
                    out.append(e.0.as_str());
                    out.append(" = ");
                    push_quoted(&mut out, v.as_str());
                    out.append("\n");
                },
                _ => {
                },
            }
            proof {
                assert(out@ =~= base + spec_dep_scalars(m.dependencies@.take(i + 1)));
            }
            i += 1;
        }
        proof {
            assert(m.dependencies@.take(n as int) =~= m.dependencies@);
            assert(out@ =~= head + "\n[dependencies]\n"@ + spec_dep_scalars(m.dependencies@));
        }
    }
    let ghost base2 = out@;
    let mut i: usize = 0;
    proof {
        assert(m.dependencies@.take(0) =~= Seq::<(String, Dependency)>::empty());
        assert(out@ =~= base2 + spec_dep_tables(m.dependencies@.take(0)));
    }
    while i < n
        invariant
            i <= n,
            n == m.dependencies@.len(),
            out@ == base2 + spec_dep_tables(m.dependencies@.take(i as int)),
        decreases n - i,
    {
        proof {
            crate::strutil::lemma_take_push(m.dependencies@, i as int);
            assert(m.dependencies@.take(i + 1).drop_last() =~= m.dependencies@.take(i as int));
            assert(m.dependencies@.take(i + 1).last() == m.dependencies@[i as int]);
        }
        let e = &m.dependencies[i];
        match &e.1 {
            Dependency::Version(_) => {
            },
            Dependency::Default => {
                out.append("\n[dependencies.");
                out.append(e.0.as_str());
                out.append("]\n");
            },
            Dependency::Full(d) => {
                out.append("\n[dependencies.");
                out.append(e.0.as_str());
                out.append("]\n");
                push_dep_full(&mut out, d);
            },
        }
        proof {
            assert(out@ =~= base2 + spec_dep_tables(m.dependencies@.take(i + 1)));
        }
        i += 1;
    }
    proof {
        assert(m.dependencies@.take(n as int) =~= m.dependencies@);
    }
    if m.features.len() > 0 {
        out.append("\n[features]\n");
        let ghost base3 = out@;
        let fnum = m.features.len();
        let mut i: usize = 0;
        proof {
            assert(m.features@.take(0) =~= Seq::<(String, Vec<String>)>::empty());
            assert(out@ =~= base3 + spec_features(m.features@.take(0)));
        }
        while i < fnum
            invariant
                i <= fnum,
                fnum == m.features@.len(),
                out@ == base3 + spec_features(m.features@.take(i as int)),
            decreases fnum - i,
        {
            proof {
                crate::strutil::lemma_take_push(m.features@, i as int);
                assert(m.features@.take(i + 1).drop_last() =~= m.features@.take(i as int));
                assert(m.features@.take(i + 1).last() == m.features@[i as int]);
            }
            let e = &m.features[i];
            out.append(e.0.as_str());
            out.append(" = [");
            push_str_list(&mut out, &e.1);
            out.append("]\n");
            proof {
                assert(out@ =~= base3 + spec_features(m.features@.take(i + 1)));
            }
            i += 1;
        }
        proof {
            assert(m.features@.take(fnum as int) =~= m.features@);
        }
    }
    proof {
        assert(out@ =~= spec_manifest_toml(*m));
    }
    out
}

/// A generated package: a manifest plus the files of its source tree.
#[derive(Debug, Default)]
pub struct Crate {
    pub manifest: Manifest,
    pub files: FileMap,
}

impl Crate {
    /// An empty package named `name`.
    pub fn new(name: &str) -> (r: Crate)
        ensures
            r.manifest.package.name@ == name@,
            r.manifest.package.edition is None,
            r.manifest.package.license is None,
            r.manifest.package.rust_version is None,
            r.manifest.dependencies@.len() == 0,
            r.manifest.features@.len() == 0,
            r.files@ == Seq::<(Seq<char>, Seq<char>)>::empty(),
    {
        Crate { manifest: Manifest::new(name), files: FileMap::new() }
    }

    /// The package as a file map: its files plus the rendered manifest.
    pub fn render(self) -> (r: FileMap)
        ensures
            r@ == fm_insert(self.files@, "Cargo.toml"@, spec_manifest_toml(self.manifest)),
    {
        let manifest_content = manifest_toml(&self.manifest);
        let mut files = self.files;
        files.insert("Cargo.toml".to_owned(), manifest_content);
        files
    }
}

} // verus!
