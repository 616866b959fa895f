//! The build-description file of the first backend: contexts and builders,
//! rendered as a fixed-shape YAML document.
//!
//! Rendering is deterministic: sections in declaration order, each name set
//! and map in its stored (sorted) order, values written verbatim (names and
//! flag strings here need no quoting).

use vstd::prelude::*;

pub use crate::model::StringOrVecString;

use crate::model::StrOrStrs;

verus! {

/// One context or builder entry of the build description.  `provides`,
/// `requires_` and `selects` are sorted name sets, `env` a sorted map.
#[derive(Debug, Clone, PartialEq, Eq, Default)]
pub struct LazeContext {
    pub name: String,
    pub parent: Option<String>,
    pub provides: Vec<String>,
    pub requires_: Vec<String>,
    pub selects: Vec<String>,
    pub env: Vec<(String, StringOrVecString)>,
}

impl LazeContext {
    /// An empty context named `name`.
    pub fn new(name: &str) -> (r: LazeContext)
        ensures
            r.name@ == name@,
            r.parent is None,
            r.provides@.len() == 0,
            r.requires_@.len() == 0,
            r.selects@.len() == 0,
            r.env@.len() == 0,
    {
        LazeContext {
            name: name.to_owned(),
            parent: None,
            provides: Vec::new(),
            requires_: Vec::new(),
            selects: Vec::new(),
            env: Vec::new(),
        }
    }
}

/// A whole build-description file.
#[derive(Debug, Clone, PartialEq, Eq, Default)]
pub struct LazeFile {
    pub contexts: Option<Vec<LazeContext>>,
    pub builders: Option<Vec<LazeContext>>,
}

impl LazeFile {
    /// An empty file: no contexts, no builders.
    pub fn new() -> (r: LazeFile)
        ensures
            r.contexts is None,
            r.builders is None,
    {
        LazeFile { contexts: None, builders: None }
    }
}

/// An indented name-list section: nothing when the set is empty.
pub open spec fn spec_name_set(label: Seq<char>, names: Seq<Seq<char>>) -> Seq<char> {
    if names.len() == 0 {
        Seq::empty()
    } else {
        "  "@ + label + ":\n"@ + spec_name_items(names)
    }
}

/// The `  - name` lines of a name list.
pub open spec fn spec_name_items(names: Seq<Seq<char>>) -> Seq<char>
    decreases names.len(),
{
    if names.len() == 0 {
        Seq::empty()
    } else {
        spec_name_items(names.drop_last()) + "  - "@ + names.last() + "\n"@
    }
}

/// One environment entry: a single value on the key's line, a list as
/// `- value` lines below it.
pub open spec fn spec_env_entry(key: Seq<char>, v: StrOrStrs) -> Seq<char> {
    match v {
        StrOrStrs::One(s) => "    "@ + key + ": "@ + s + "\n"@,
        StrOrStrs::Many(items) => "    "@ + key + ":\n"@ + spec_env_items(items),
    }
}

/// The `    - value` lines of a list-valued environment entry.
pub open spec fn spec_env_items(items: Seq<Seq<char>>) -> Seq<char>
    decreases items.len(),
{
    if items.len() == 0 {
        Seq::empty()
    } else {
        spec_env_items(items.drop_last()) + "    - "@ + items.last() + "\n"@
    }
}

/// The environment section: nothing when the map is empty.
pub open spec fn spec_env(env: Seq<(Seq<char>, StrOrStrs)>) -> Seq<char>
    decreases env.len(),
{
    if env.len() == 0 {
        Seq::empty()
    } else {
        spec_env(env.drop_last()) + spec_env_entry(env.last().0, env.last().1)
    }
}

/// One context entry: its name, then its optional parent, then its non-empty
/// name sets, then its environment.
pub open spec fn spec_laze_context(c: LazeContext) -> Seq<char> {
    "- name: "@ + c.name@ + "\n"@ + (match c.parent {
        Some(p) => "  parent: "@ + p@ + "\n"@,
        None => Seq::empty(),
    }) + spec_name_set("provides"@, c.provides.deep_view()) + spec_name_set(
        "requires"@,
        c.requires_.deep_view(),
    ) + spec_name_set("selects"@, c.selects.deep_view()) + (if c.env@.len() == 0 {
        Seq::empty()
    } else {
        "  env:\n"@ + spec_env(crate::kvmap::kv_view(c.env@))
    })
}

/// The entries of one section, in order.
pub open spec fn spec_laze_contexts(cs: Seq<LazeContext>) -> Seq<char>
    decreases cs.len(),
{
    if cs.len() == 0 {
        Seq::empty()
    } else {
        spec_laze_contexts(cs.drop_last()) + spec_laze_context(cs.last())
    }
}

/// The whole file: the contexts section, then the builders section; an empty
/// document where both are absent.
pub open spec fn spec_laze_yaml(f: LazeFile) -> Seq<char> {
    if f.contexts is None && f.builders is None {
        "{}\n"@
    } else {
        (match f.contexts {
            Some(cs) => "contexts:\n"@ + spec_laze_contexts(cs@),
            None => Seq::empty(),
        }) + (match f.builders {
            Some(cs) => "builders:\n"@ + spec_laze_contexts(cs@),
            None => Seq::empty(),
        })
    }
}

fn push_name_items(out: &mut String, names: &Vec<String>)
    ensures
        final(out)@ == old(out)@ + spec_name_items(names.deep_view()),
{
    let ghost base = out@;
    let ghost nv = names.deep_view();
    let n = names.len();
    let mut i: usize = 0;
    proof {
        assert(nv.take(0) =~= Seq::<Seq<char>>::empty());
        assert(out@ =~= base + spec_name_items(nv.take(0)));
        assert(forall|j: int| 0 <= j < names@.len() ==> nv[j] == #[trigger] names@[j]@);
    }
    while i < n
        invariant
            i <= n,
            n == names@.len(),
            nv == names.deep_view(),
            nv.len() == n,
            forall|j: int| 0 <= j < names@.len() ==> nv[j] == #[trigger] names@[j]@,
            out@ == base + spec_name_items(nv.take(i as int)),
        decreases n - i,
    {
        proof {
            crate::strutil::lemma_take_push(nv, i as int);
            assert(nv.take(i + 1).drop_last() =~= nv.take(i as int));
            assert(nv.take(i + 1).last() == nv[i as int]);
        }
        out.append("  - ");
        let e = &names[i];
        out.append(e.as_str());
        out.append("\n");
        proof {
            assert(out@ =~= base + spec_name_items(nv.take(i + 1)));
        }
        i += 1;
    }
    proof {
        assert(nv.take(n as int) =~= nv);
    }
}

fn push_name_set(out: &mut String, label: &str, names: &Vec<String>)
    ensures
        final(out)@ == old(out)@ + spec_name_set(label@, names.deep_view()),
{
    if names.len() > 0 {
        out.append("  ");
        out.append(label);
        out.append(":\n");
        push_name_items(out, names);
        proof {
            assert(out@ =~= old(out)@ + spec_name_set(label@, names.deep_view()));
        }
    }
}

fn push_env_items(out: &mut String, items: &Vec<String>)
    ensures
        final(out)@ == old(out)@ + spec_env_items(items.deep_view()),
{
    let ghost base = out@;
    let ghost iv = items.deep_view();
    let n = items.len();
    let mut i: usize = 0;
    proof {
        assert(iv.take(0) =~= Seq::<Seq<char>>::empty());
        assert(out@ =~= base + spec_env_items(iv.take(0)));
        assert(forall|j: int| 0 <= j < items@.len() ==> iv[j] == #[trigger] items@[j]@);
    }
    while i < n
        invariant
            i <= n,
            n == items@.len(),
            iv == items.deep_view(),
            iv.len() == n,
            forall|j: int| 0 <= j < items@.len() ==> iv[j] == #[trigger] items@[j]@,
            out@ == base + spec_env_items(iv.take(i as int)),
        decreases n - i,
    {
        proof {
            crate::strutil::lemma_take_push(iv, i as int);
            assert(iv.take(i + 1).drop_last() =~= iv.take(i as int));
            assert(iv.take(i + 1).last() == iv[i as int]);
        }
        out.append("    - ");
        let e = &items[i];
        out.append(e.as_str());
        out.append("\n");
        proof {
            assert(out@ =~= base + spec_env_items(iv.take(i + 1)));
        }
        i += 1;
    }
    proof {
        assert(iv.take(n as int) =~= iv);
    }
}

#[verifier::rlimit(60)]
fn push_env(out: &mut String, env: &Vec<(String, StringOrVecString)>)
    ensures
        final(out)@ == old(out)@ + spec_env(crate::kvmap::kv_view(env@)),
{
    let ghost base = out@;
    let ghost ev = crate::kvmap::kv_view(env@);
    let n = env.len();
    let mut i: usize = 0;
    proof {
        crate::kvmap::lemma_kv_view_index(env@);
        assert(ev.take(0) =~= Seq::<(Seq<char>, StrOrStrs)>::empty());
        assert(out@ =~= base + spec_env(ev.take(0)));
    }
    while i < n
        invariant
            i <= n,
            n == env@.len(),
            ev == crate::kvmap::kv_view(env@),
            ev.len() == n,
            forall|j: int|
                0 <= j < env@.len() ==> ev[j] == (env@[j].0@, #[trigger] env@[j].1.deep_view()),
            out@ == base + spec_env(ev.take(i as int)),
        decreases n - i,
    {
        proof {
            crate::strutil::lemma_take_push(ev, i as int);
            assert(ev.take(i + 1).drop_last() =~= ev.take(i as int));
            assert(ev.take(i + 1).last() == ev[i as int]);
        }
        let e = &env[i];
        out.append("    ");
        out.append(e.0.as_str());
        match &e.1 {
            StringOrVecString::String(s) => {
                out.append(": ");
                out.append(s.as_str());
                out.append("\n");
            },
            StringOrVecString::VecString(items) => {
                out.append(":\n");
                push_env_items(out, items);
            },
        }
        proof {
            assert(ev[i as int] == (env@[i as int].0@, env@[i as int].1.deep_view()));
            assert(out@ =~= base + spec_env(ev.take(i + 1)));
        }
        i += 1;
    }
    proof {
        assert(ev.take(n as int) =~= ev);
    }
}

fn push_laze_context(out: &mut String, c: &LazeContext)
    ensures
        final(out)@ == old(out)@ + spec_laze_context(*c),
{
    let ghost base = out@;
    out.append("- name: ");
    out.append(c.name.as_str());
    out.append("\n");
    if let Some(p) = &c.parent {
        out.append("  parent: ");
        out.append(p.as_str());
        out.append("\n");
    }
    let ghost c1 = out@;
    proof {
        assert(c1 =~= base + ("- name: "@ + c.name@ + "\n"@ + (match &c.parent {
            Some(p) => "  parent: "@ + p@ + "\n"@,
            None => Seq::<char>::empty(),
        })));
    }
    push_name_set(out, "provides", &c.provides);
    let ghost c2 = out@;
    push_name_set(out, "requires", &c.requires_);
    let ghost c3 = out@;
    push_name_set(out, "selects", &c.selects);
    let ghost c4 = out@;
    if c.env.len() > 0 {
        out.append("  env:\n");
        push_env(out, &c.env);
    }
    proof {
        let s1 = "- name: "@ + c.name@ + "\n"@ + (match &c.parent {
            Some(p) => "  parent: "@ + p@ + "\n"@,
            None => Seq::<char>::empty(),
        });
        let s2 = spec_name_set("provides"@, c.provides.deep_view());
        let s3 = spec_name_set("requires"@, c.requires_.deep_view());
        let s4 = spec_name_set("selects"@, c.selects.deep_view());
        let s5 = if c.env@.len() == 0 {
            Seq::<char>::empty()
        } else {
            "  env:\n"@ + spec_env(crate::kvmap::kv_view(c.env@))
        };
        assert(c2 == c1 + s2);
        assert(c3 == c2 + s3);
        assert(c4 == c3 + s4);
        assert(out@ =~= c4 + s5);
        crate::strutil::lemma_cat5(base, s1, s2, s3, s4, s5);
        assert(out@ == ((((base + s1) + s2) + s3) + s4) + s5);
        assert(spec_laze_context(*c) == (((s1 + s2) + s3) + s4) + s5);
        assert(out@ == base + spec_laze_context(*c));
    }
}

fn push_laze_contexts(out: &mut String, cs: &Vec<LazeContext>)
    ensures
        final(out)@ == old(out)@ + spec_laze_contexts(cs@),
{
    let ghost base = out@;
    let n = cs.len();
    let mut i: usize = 0;
    proof {
        assert(cs@.take(0) =~= Seq::<LazeContext>::empty());
        assert(out@ =~= base + spec_laze_contexts(cs@.take(0)));
    }
    while i < n
        invariant
            i <= n,
            n == cs@.len(),
            out@ == base + spec_laze_contexts(cs@.take(i as int)),
        decreases n - i,
    {
        proof {
            crate::strutil::lemma_take_push(cs@, i as int);
            assert(cs@.take(i + 1).drop_last() =~= cs@.take(i as int));
            assert(cs@.take(i + 1).last() == cs@[i as int]);
        }
        let e = &cs[i];
        push_laze_context(out, e);
        proof {
            assert(out@ =~= base + spec_laze_contexts(cs@.take(i + 1)));
        }
        i += 1;
    }
    proof {
        assert(cs@.take(n as int) =~= cs@);
    }
}

impl LazeFile {
    /// The file rendered as YAML text.
    pub fn to_yaml(&self) -> (r: String)
        ensures
            r@ == spec_laze_yaml(*self),
    {
        let mut out = String::new();
        if self.contexts.is_none() && self.builders.is_none() {
            out.append("{}\n");
            proof {
                assert(out@ =~= spec_laze_yaml(*self));
            }
            return out;
        }
        if let Some(cs) = &self.contexts {
            out.append("contexts:\n");
            push_laze_contexts(&mut out, cs);
        }
        if let Some(cs) = &self.builders {
            out.append("builders:\n");
            push_laze_contexts(&mut out, cs);
        }
        proof {
            assert(out@ =~= spec_laze_yaml(*self));
        }
        out
    }
}

} // verus!
