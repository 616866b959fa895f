//! The generated output: a map from relative file path to file content, and
//! the reconciler that decides how the map goes onto a destination tree.
//!
//! Nothing here touches a filesystem.  The reconciler computes, from the map
//! and from what a caller reports about the destination, either the writes
//! to perform or the differences found; the caller performs them.

use vstd::prelude::*;

use crate::kvmap::{kv_get, kv_has_key, kv_view};
use crate::kvmap::lemma_kv_view_index;

verus! {

/// Replacing the first entry under `k` in place, appending a new entry if
/// the key is absent.
pub open spec fn fm_insert(s: Seq<(Seq<char>, Seq<char>)>, k: Seq<char>, v: Seq<char>) -> Seq<
    (Seq<char>, Seq<char>),
>
    decreases s.len(),
{
    if s.len() == 0 {
        seq![(k, v)]
    } else if s[0].0 == k {
        seq![(k, v)] + s.skip(1)
    } else {
        seq![s[0]] + fm_insert(s.skip(1), k, v)
    }
}

/// A map from generated file path to file content.  Entries keep insertion
/// order; a path holds one content.
#[derive(Debug, PartialEq, Eq, Default)]
pub struct FileMap {
    entries: Vec<(String, String)>,
}

impl View for FileMap {
    type V = Seq<(Seq<char>, Seq<char>)>;

    closed spec fn view(&self) -> Seq<(Seq<char>, Seq<char>)> {
        kv_view(self.entries@)
    }
}

impl FileMap {
    /// The empty map.
    pub fn new() -> (r: FileMap)
        ensures
            r@ == Seq::<(Seq<char>, Seq<char>)>::empty(),
    {
        let r = FileMap { entries: Vec::new() };
        proof {
            lemma_kv_view_index(r.entries@);
            assert(r@ =~= Seq::<(Seq<char>, Seq<char>)>::empty());
        }
        r
    }

    /// How many files the map holds.
    pub fn len(&self) -> (n: usize)
        ensures
            n == self@.len(),
    {
        proof {
            lemma_kv_view_index(self.entries@);
        }
        self.entries.len()
    }

    /// Puts `content` under `path`, replacing what an equal path held.
    pub fn insert(&mut self, path: String, content: String)
        ensures
            final(self)@ == fm_insert(old(self)@, path@, content@),
    {
        let ghost s0 = old(self).entries@;
        proof {
            lemma_kv_view_index(s0);
        }
        let mut i: usize = 0;
        while i < self.entries.len()
            invariant
                i <= self.entries@.len(),
                s0 == old(self).entries@,
                self.entries@ == s0,
                forall|j: int| 0 <= j < i ==> (#[trigger] s0[j].0@) != path@,
            decreases self.entries@.len() - i,
        {
            let e = &self.entries[i];
            if crate::strutil::str_eq(e.0.as_str(), path.as_str()) {
                let _old = self.entries.remove(i);
                self.entries.insert(i, (path, content));
                proof {
                    lemma_kv_view_index(s0);
                    assert(self.entries@ =~= s0.take(i as int) + seq![self.entries@[i as int]]
                        + s0.skip(i as int + 1));
                    lemma_kv_view_index(self.entries@);
                    assert(forall|j: int|
                        0 <= j < i ==> (#[trigger] kv_view(s0)[j]).0 != path@);
                    lemma_fm_insert_split(kv_view(s0), path@, content@, i as int);
                    assert(forall|j: int|
                        0 <= j < kv_view(s0).len() - i ==> kv_view(s0).skip(i as int)[j]
                            == kv_view(s0)[i + j]);
                    assert(kv_view(s0).skip(i as int).skip(1) =~= kv_view(s0).skip(i as int + 1));
                    assert(fm_insert(kv_view(s0).skip(i as int), path@, content@) == seq![
                        (path@, content@)] + kv_view(s0).skip(i as int + 1));
                    assert(self@ =~= kv_view(s0).take(i as int) + (seq![(path@, content@)]
                        + kv_view(s0).skip(i as int + 1)));
                }
                return ;
            }
            i += 1;
        }
        self.entries.push((path, content));
        proof {
            lemma_kv_view_index(s0);
            assert(self.entries@ =~= s0 + seq![self.entries@[s0.len() as int]]);
            lemma_kv_view_index(self.entries@);
            assert(forall|j: int|
                0 <= j < s0.len() ==> (#[trigger] kv_view(s0)[j]).0 != path@);
            lemma_fm_insert_split(kv_view(s0), path@, content@, s0.len() as int);
            assert(kv_view(s0).skip(s0.len() as int) =~= Seq::<(Seq<char>, Seq<char>)>::empty());
            assert(fm_insert(kv_view(s0).skip(s0.len() as int), path@, content@) =~= seq![
                (path@, content@)]);
            assert(kv_view(s0).take(s0.len() as int) =~= kv_view(s0));
            assert(self@ =~= kv_view(s0) + seq![(path@, content@)]);
        }
    }

    /// The content under `path`, if any.
    pub fn get<'a>(&'a self, path: &str) -> (r: Option<&'a String>)
        ensures
            match r {
                Some(c) => kv_get(self@, path@) == Some(c@),
                None => kv_get(self@, path@) is None,
            },
    {
        proof {
            lemma_kv_view_index(self.entries@);
        }
        match crate::kvmap::kv_find(&self.entries, path) {
            Some(i) => {
                proof {
                    crate::kvmap::lemma_kv_get_at(self@, path@, i as int);
                }
                Some(&self.entries[i].1)
            },
            None => {
                proof {
                    crate::kvmap::lemma_kv_get_none(self@, path@);
                }
                None
            },
        }
    }

    /// The entries, in map order.
    pub fn into_vec(self) -> (r: Vec<(String, String)>)
        ensures
            kv_view(r@) == self@,
    {
        self.entries
    }

    /// A borrow of the entries, in map order.
    pub fn as_vec(&self) -> (r: &Vec<(String, String)>)
        ensures
            kv_view(r@) == self@,
    {
        &self.entries
    }

    /// Moves every file of `sub` into `self`, each under
    /// `<dir>/<its path>`.
    pub fn extend_subdir(&mut self, dir: &str, sub: FileMap)
        ensures
            final(self)@ == fm_extend_subdir(old(self)@, dir@, sub@),
    {
        let ghost subv = sub@;
        let ghost dirv = dir@;
        let mut rest = sub.entries;
        proof {
            lemma_kv_view_index(rest@);
            assert(kv_view(rest@).skip(0) =~= kv_view(rest@));
        }
        let ghost n0 = rest@.len();
        while !rest.is_empty()
            invariant
                rest@.len() <= n0,
                dirv == dir@,
                fm_extend_subdir(self@, dirv, kv_view(rest@)) == fm_extend_subdir(
                    old(self)@,
                    dirv,
                    subv,
                ),
            decreases rest@.len(),
        {
            let ghost restv0 = kv_view(rest@);
            let ghost rs0 = rest@;
            let (p, c) = rest.remove(0);
            proof {
                lemma_kv_view_index(rs0);
                lemma_kv_view_index(rest@);
                assert(rest@ =~= rs0.skip(1));
            }
            let mut path = dir.to_owned();
            path.append("/");
            path.append(p.as_str());
            proof {
                assert(kv_view(rest@) =~= restv0.skip(1));
                assert(restv0[0] == (p@, c@));
                assert(path@ =~= dirv + "/"@ + p@);
            }
            self.insert(path, c);
        }
        proof {
            assert(kv_view(rest@).len() == 0);
            assert(kv_view(rest@) =~= Seq::<(Seq<char>, Seq<char>)>::empty());
        }
    }
}

/// Entries with other keys at the front pass through an in-place insert
/// unchanged.
proof fn lemma_fm_insert_split(s: Seq<(Seq<char>, Seq<char>)>, k: Seq<char>, v: Seq<char>, i: int)
    requires
        0 <= i <= s.len(),
        forall|j: int| 0 <= j < i ==> (#[trigger] s[j].0) != k,
    ensures
        fm_insert(s, k, v) == s.take(i) + fm_insert(s.skip(i), k, v),
    decreases i,
{
    if i == 0 {
        assert(s.take(0) =~= Seq::<(Seq<char>, Seq<char>)>::empty());
        assert(s.skip(0) =~= s);
        assert(fm_insert(s, k, v) =~= s.take(0) + fm_insert(s.skip(0), k, v));
    } else {
        assert(s[0].0 != k);
        assert(fm_insert(s, k, v) == seq![s[0]] + fm_insert(s.skip(1), k, v));
        assert(forall|j: int| 0 <= j < s.len() - 1 ==> s.skip(1)[j] == s[j + 1]);
        lemma_fm_insert_split(s.skip(1), k, v, i - 1);
        assert(s.skip(1).skip(i - 1) =~= s.skip(i));
        assert(seq![s[0]] + (s.skip(1).take(i - 1) + fm_insert(s.skip(i), k, v)) =~= (seq![s[0]]
            + s.skip(1).take(i - 1)) + fm_insert(s.skip(i), k, v));
        assert(seq![s[0]] + s.skip(1).take(i - 1) =~= s.take(i));
    }
}

/// Inserting every file of `sub` under `<dir>/<its path>`, in order.
pub open spec fn fm_extend_subdir(
    s: Seq<(Seq<char>, Seq<char>)>,
    dir: Seq<char>,
    sub: Seq<(Seq<char>, Seq<char>)>,
) -> Seq<(Seq<char>, Seq<char>)>
    decreases sub.len(),
{
    if sub.len() == 0 {
        s
    } else {
        fm_extend_subdir(fm_insert(s, dir + "/"@ + sub[0].0, sub[0].1), dir, sub.skip(1))
    }
}

/// How the reconciler maps generated files onto the destination.
#[derive(Debug, Clone, Copy, PartialEq, Eq, Default)]
pub enum Mode {
    /// Fail if the destination exists already.
    #[default]
    Create,
    /// Always write, replacing what is there.
    Overwrite,
    /// Read-only: report differences, mutate nothing.
    Check,
}

/// The parse of a mode name.
pub open spec fn spec_parse_mode(s: Seq<char>) -> Option<Mode> {
    if s == "create"@ {
        Some(Mode::Create)
    } else if s == "overwrite"@ {
        Some(Mode::Overwrite)
    } else if s == "check"@ {
        Some(Mode::Check)
    } else {
        None
    }
}

impl Mode {
    /// Parses a mode name: `create`, `overwrite` or `check`.
    pub fn parse(s: &str) -> (r: Result<Mode, String>)
        ensures
            match r {
                Ok(m) => spec_parse_mode(s@) == Some(m),
                Err(e) => spec_parse_mode(s@) is None && e@ == "Invalid mode: "@ + s@,
            },
    {
        if crate::strutil::str_eq(s, "create") {
            Ok(Mode::Create)
        } else if crate::strutil::str_eq(s, "overwrite") {
            Ok(Mode::Overwrite)
        } else if crate::strutil::str_eq(s, "check") {
            Ok(Mode::Check)
        } else {
            let mut e = String::new();
            e.append("Invalid mode: ");
            e.append(s);
            proof {
                assert(e@ =~= "Invalid mode: "@ + s@);
            }
            Err(e)
        }
    }

    /// Whether files already present may be replaced.
    pub fn overwrites(self) -> (r: bool)
        ensures
            r == (self is Overwrite),
    {
        match self {
            Mode::Overwrite => true,
            _ => false,
        }
    }
}

/// Parses a mode name: `create`, `overwrite` or `check`.
pub fn parse_mode(s: &str) -> (r: Result<Mode, String>)
    ensures
        match r {
            Ok(m) => spec_parse_mode(s@) == Some(m),
            Err(e) => spec_parse_mode(s@) is None && e@ == "Invalid mode: "@ + s@,
        },
{
    Mode::parse(s)
}

/// The destination already exists and may not be replaced.
#[derive(Debug, Clone, Copy, PartialEq, Eq)]
pub struct ConflictError {
}

/// The writes that realizing `files` under `outpath` performs: each file at
/// `<outpath>/<its path>`, in map order.
pub open spec fn spec_write_plan(files: Seq<(Seq<char>, Seq<char>)>, outpath: Seq<char>) -> Seq<
    (Seq<char>, Seq<char>),
>
    decreases files.len(),
{
    if files.len() == 0 {
        Seq::empty()
    } else {
        spec_write_plan(files.drop_last(), outpath).push(
            (outpath + "/"@ + files.last().0, files.last().1),
        )
    }
}

/// What the reconciler does in a writing mode: refuses an existing
/// destination unless overwriting, else plans one write per file.
pub open spec fn spec_plan_writes(
    files: Seq<(Seq<char>, Seq<char>)>,
    outpath: Seq<char>,
    overwrite: bool,
    dest_exists: bool,
) -> Option<Seq<(Seq<char>, Seq<char>)>> {
    if !overwrite && dest_exists {
        None
    } else {
        Some(spec_write_plan(files, outpath))
    }
}

/// `spec_write_plan` is pointwise.
pub broadcast proof fn lemma_write_plan_index(
    files: Seq<(Seq<char>, Seq<char>)>,
    outpath: Seq<char>,
)
    ensures
        (#[trigger] spec_write_plan(files, outpath)).len() == files.len(),
        forall|i: int|
            0 <= i < files.len() ==> spec_write_plan(files, outpath)[i] == (outpath + "/"@
                + files[i].0, files[i].1),
    decreases files.len(),
{
    if files.len() > 0 {
        lemma_write_plan_index(files.drop_last(), outpath);
    }
}

/// The writes to perform, or the conflict that forbids them.  `dest_exists`
/// is what the caller found at the destination; nothing is read or written
/// here.
pub fn plan_writes(files: &FileMap, outpath: &str, overwrite: bool, dest_exists: bool) -> (r:
    Result<Vec<(String, String)>, ConflictError>)
    ensures
        match r {
            Ok(ws) => spec_plan_writes(files@, outpath@, overwrite, dest_exists) == Some(
                kv_view(ws@),
            ),
            Err(_) => spec_plan_writes(files@, outpath@, overwrite, dest_exists) is None,
        },
{
    if !overwrite && dest_exists {
        return Err(ConflictError {  });
    }
    proof {
        lemma_write_plan_index(files@, outpath@);
    }
    let mut out: Vec<(String, String)> = Vec::new();
    let mut i: usize = 0;
    let entries = files.as_vec();
    proof {
        lemma_kv_view_index(entries@);
        lemma_kv_view_index(out@);
        assert(kv_view(out@) =~= spec_write_plan(files@, outpath@).take(0));
    }
    let n = entries.len();
    while i < n
        invariant
            i <= n,
            n == entries@.len(),
            kv_view(entries@) == files@,
            forall|j: int|
                0 <= j < entries@.len() ==> #[trigger] kv_view(entries@)[j] == (entries@[j].0@,
                entries@[j].1@),
            kv_view(entries@).len() == entries@.len(),
            spec_write_plan(files@, outpath@).len() == files@.len(),
            forall|j: int|
                0 <= j < files@.len() ==> spec_write_plan(files@, outpath@)[j] == (outpath@ + "/"@
                    + files@[j].0, files@[j].1),
            kv_view(out@) == spec_write_plan(files@, outpath@).take(i as int),
        decreases n - i,
    {
        let e = &entries[i];
        let mut path = outpath.to_owned();
        path.append("/");
        path.append(e.0.as_str());
        let ghost out0 = out@;
        out.push((path, e.1.clone()));
        proof {
            assert(out@ =~= out0 + seq![out@[out0.len() as int]]);
            lemma_kv_view_index(out@);
            lemma_kv_view_index(out0);
            crate::strutil::lemma_take_push(spec_write_plan(files@, outpath@), i as int);
            assert(out@[out0.len() as int].0@ == outpath@ + "/"@ + files@[i as int].0);
            assert(kv_view(out@) =~= spec_write_plan(files@, outpath@).take(i + 1));
        }
        i += 1;
    }
    proof {
        assert(spec_write_plan(files@, outpath@).take(files@.len() as int) =~= spec_write_plan(
            files@,
            outpath@,
        ));
    }
    Ok(out)
}

/// In create mode the reconciler refuses an existing destination and plans
/// no write at all, whatever the map holds.
pub proof fn lemma_create_refuses_existing(
    files: Seq<(Seq<char>, Seq<char>)>,
    outpath: Seq<char>,
)
    ensures
        spec_plan_writes(files, outpath, false, true) is None,
{
}

/// The paths of `disk` entries that the map also holds but with content of a
/// different length.  Content comparison short-circuits on length equality:
/// equal-length content counts as unchanged.
pub open spec fn spec_differing(
    files: Seq<(Seq<char>, Seq<char>)>,
    disk: Seq<(Seq<char>, Seq<char>)>,
) -> Seq<Seq<char>>
    decreases disk.len(),
{
    if disk.len() == 0 {
        Seq::empty()
    } else {
        let rest = spec_differing(files, disk.drop_last());
        match kv_get(files, disk.last().0) {
            Some(c) => if c.len() != disk.last().1.len() {
                rest.push(disk.last().0)
            } else {
                rest
            },
            None => rest,
        }
    }
}

/// The paths of `disk` entries that the map does not hold.
pub open spec fn spec_extra(
    files: Seq<(Seq<char>, Seq<char>)>,
    disk: Seq<(Seq<char>, Seq<char>)>,
) -> Seq<Seq<char>>
    decreases disk.len(),
{
    if disk.len() == 0 {
        Seq::empty()
    } else {
        let rest = spec_extra(files, disk.drop_last());
        if kv_get(files, disk.last().0) is None {
            rest.push(disk.last().0)
        } else {
            rest
        }
    }
}

/// The paths of map entries that `disk` does not hold.
pub open spec fn spec_missing(
    files: Seq<(Seq<char>, Seq<char>)>,
    disk: Seq<(Seq<char>, Seq<char>)>,
) -> Seq<Seq<char>>
    decreases files.len(),
{
    if files.len() == 0 {
        Seq::empty()
    } else {
        let rest = spec_missing(files.drop_last(), disk);
        if !kv_has_key(disk, files.last().0) {
            rest.push(files.last().0)
        } else {
            rest
        }
    }
}

/// The three difference sets of check mode, over the disk contents the
/// caller read: files differing in content length, files on disk with no map
/// entry, and map entries absent from disk.  Nothing is read or written
/// here, and nothing is mutated.
pub fn compare(files: &FileMap, disk: &FileMap) -> (r: (Vec<String>, Vec<String>, Vec<String>))
    ensures
        r.0.deep_view() == spec_differing(files@, disk@),
        r.1.deep_view() == spec_extra(files@, disk@),
        r.2.deep_view() == spec_missing(files@, disk@),
{
    let mut differing: Vec<String> = Vec::new();
    let mut extra: Vec<String> = Vec::new();
    let mut missing: Vec<String> = Vec::new();
    let dents = disk.as_vec();
    let fents = files.as_vec();
    proof {
        lemma_kv_view_index(dents@);
        lemma_kv_view_index(fents@);
        assert(disk@.take(0) =~= Seq::<(Seq<char>, Seq<char>)>::empty());
        assert(differing.deep_view() =~= spec_differing(files@, disk@.take(0)));
        assert(extra.deep_view() =~= spec_extra(files@, disk@.take(0)));
    }
    let mut i: usize = 0;
    let dn = dents.len();
    while i < dn
        invariant
            i <= dn,
            dn == dents@.len(),
            kv_view(dents@) == disk@,
            kv_view(fents@) == files@,
            disk@.len() == dents@.len(),
            forall|j: int|
                0 <= j < dents@.len() ==> #[trigger] disk@[j] == (dents@[j].0@, dents@[j].1@),
            differing.deep_view() == spec_differing(files@, disk@.take(i as int)),
            extra.deep_view() == spec_extra(files@, disk@.take(i as int)),
        decreases dn - i,
    {
        let e = &dents[i];
        proof {
            crate::strutil::lemma_take_push(disk@, i as int);
            assert(disk@.take(i + 1).drop_last() =~= disk@.take(i as int));
            assert(disk@.take(i + 1).last() == disk@[i as int]);
        }
        match files.get(e.0.as_str()) {
            Some(c) => {
                if c.as_str().unicode_len() != e.1.as_str().unicode_len() {
                    let ghost d0 = differing.deep_view();
                    differing.push(e.0.clone());
                    proof {
                        assert(differing.deep_view() =~= d0.push(e.0@));
                    }
                }
            },
            None => {
                let ghost x0 = extra.deep_view();
                extra.push(e.0.clone());
                proof {
                    assert(extra.deep_view() =~= x0.push(e.0@));
                }
            },
        }
        i += 1;
    }
    proof {
        assert(disk@.take(disk@.len() as int) =~= disk@);
        assert(files@.take(0) =~= Seq::<(Seq<char>, Seq<char>)>::empty());
        assert(missing.deep_view() =~= spec_missing(files@.take(0), disk@));
    }
    let mut j: usize = 0;
    let fn_ = fents.len();
    while j < fn_
        invariant
            j <= fn_,
            fn_ == fents@.len(),
            kv_view(fents@) == files@,
            files@.len() == fents@.len(),
            forall|i2: int|
                0 <= i2 < fents@.len() ==> #[trigger] files@[i2] == (fents@[i2].0@, fents@[
                i2].1@),
            missing.deep_view() == spec_missing(files@.take(j as int), disk@),
        decreases fn_ - j,
    {
        let e = &fents[j];
        proof {
            crate::strutil::lemma_take_push(files@, j as int);
            assert(files@.take(j + 1).drop_last() =~= files@.take(j as int));
            assert(files@.take(j + 1).last() == files@[j as int]);
            crate::kvmap::lemma_kv_get_some_iff(disk@, files@[j as int].0);
        }
        match disk.get(e.0.as_str()) {
            Some(_) => {
            },
            None => {
                let ghost m0 = missing.deep_view();
                missing.push(e.0.clone());
                proof {
                    assert(missing.deep_view() =~= m0.push(e.0@));
                }
            },
        }
        j += 1;
    }
    proof {
        assert(files@.take(files@.len() as int) =~= files@);
    }
    (differing, extra, missing)
}

} // verus!
