//! The declarative document tree and the document merger.
//!
//! A fragment file parses into a `DocValue` tree: scalars, lists, and
//! mappings.  Mappings are kept in canonical form, sorted by key with unique
//! keys, so every walk over a document is deterministic.  Fragments merge
//! left to right: scalars override, lists concatenate, mappings merge key by
//! key, and any other combination of shapes is a `MergeError`.

use vstd::prelude::*;

use crate::strutil::lex_lt;

verus! {

/// A scalar leaf of a document tree.
#[derive(Debug, Clone, PartialEq, Eq)]
pub enum ScalarVal {
    Null,
    Bool(bool),
    Int(i64),
    Str(String),
}

/// Spec-level mirror of `ScalarVal`.
pub enum ScalarV {
    Null,
    Bool(bool),
    Int(int),
    Str(Seq<char>),
}

impl DeepView for ScalarVal {
    type V = ScalarV;

    open spec fn deep_view(&self) -> ScalarV {
        match self {
            ScalarVal::Null => ScalarV::Null,
            ScalarVal::Bool(b) => ScalarV::Bool(*b),
            ScalarVal::Int(i) => ScalarV::Int(*i as int),
            ScalarVal::Str(s) => ScalarV::Str(s@),
        }
    }
}

/// One node of a document tree.  A mapping is a vector of key/value pairs,
/// held sorted by key and with no key repeated (see `DocValue::wf`).
#[derive(Debug, PartialEq, Eq)]
pub enum DocValue {
    Scalar(ScalarVal),
    List(Vec<DocValue>),
    Mapping(Vec<(String, DocValue)>),
}

/// Spec-level mirror of `DocValue`.
pub enum Doc {
    Scalar(ScalarV),
    List(Seq<Doc>),
    Mapping(Seq<(Seq<char>, Doc)>),
}

/// The abstract document that a `DocValue` stands for.
pub open spec fn doc_view(d: DocValue) -> Doc
    decreases d,
{
    match d {
        DocValue::Scalar(s) => Doc::Scalar(s.deep_view()),
        DocValue::List(items) => Doc::List(doc_list_view(items@)),
        DocValue::Mapping(entries) => Doc::Mapping(doc_entries_view(entries@)),
    }
}

/// The abstract documents of a sequence of list items.
pub open spec fn doc_list_view(s: Seq<DocValue>) -> Seq<Doc>
    decreases s,
{
    if s.len() == 0 {
        Seq::empty()
    } else {
        doc_list_view(s.drop_last()).push(doc_view(s.last()))
    }
}

/// The abstract entries of a sequence of mapping entries.
pub open spec fn doc_entries_view(s: Seq<(String, DocValue)>) -> Seq<(Seq<char>, Doc)>
    decreases s,
{
    if s.len() == 0 {
        Seq::empty()
    } else {
        doc_entries_view(s.drop_last()).push((s.last().0@, doc_view(s.last().1)))
    }
}

/// `doc_list_view` is pointwise.
pub broadcast proof fn lemma_doc_list_view_index(s: Seq<DocValue>)
    ensures
        (#[trigger] doc_list_view(s)).len() == s.len(),
        forall|i: int| 0 <= i < s.len() ==> doc_list_view(s)[i] == doc_view(s[i]),
    decreases s.len(),
{
    if s.len() > 0 {
        lemma_doc_list_view_index(s.drop_last());
    }
}

/// `doc_entries_view` is pointwise.
pub broadcast proof fn lemma_doc_entries_view_index(s: Seq<(String, DocValue)>)
    ensures
        (#[trigger] doc_entries_view(s)).len() == s.len(),
        forall|i: int|
            0 <= i < s.len() ==> doc_entries_view(s)[i] == (s[i].0@, doc_view(s[i].1)),
    decreases s.len(),
{
    if s.len() > 0 {
        lemma_doc_entries_view_index(s.drop_last());
    }
}

/// The size of a document tree, the measure for recursion over it.
pub open spec fn dv_size(d: DocValue) -> nat
    decreases d,
{
    match d {
        DocValue::Scalar(_) => 1,
        DocValue::List(items) => 1 + dv_list_size(items@),
        DocValue::Mapping(entries) => 1 + dv_entries_size(entries@),
    }
}

pub open spec fn dv_list_size(s: Seq<DocValue>) -> nat
    decreases s,
{
    if s.len() == 0 {
        0
    } else {
        1 + dv_size(s[0]) + dv_list_size(s.skip(1))
    }
}

pub open spec fn dv_entries_size(s: Seq<(String, DocValue)>) -> nat
    decreases s,
{
    if s.len() == 0 {
        0
    } else {
        1 + dv_size(s[0].1) + dv_entries_size(s.skip(1))
    }
}

/// Mapping keys strictly ascending in lexicographic order (so also unique).
pub open spec fn entries_sorted(es: Seq<(Seq<char>, Doc)>) -> bool {
    forall|i: int, j: int| 0 <= i < j < es.len() ==> lex_lt(es[i].0, es[j].0)
}

/// Well-formedness of a document: every mapping in it is sorted by key.
pub open spec fn doc_wf(d: Doc) -> bool
    decreases d,
{
    match d {
        Doc::Scalar(_) => true,
        Doc::List(items) => list_wf(items),
        Doc::Mapping(es) => entries_sorted(es) && entries_vals_wf(es),
    }
}

/// Every item of a list is well-formed.
pub open spec fn list_wf(items: Seq<Doc>) -> bool
    decreases items,
{
    items.len() == 0 || (doc_wf(items[0]) && list_wf(items.skip(1)))
}

/// Every value of an entry sequence is well-formed.
pub open spec fn entries_vals_wf(es: Seq<(Seq<char>, Doc)>) -> bool
    decreases es,
{
    es.len() == 0 || (doc_wf(es[0].1) && entries_vals_wf(es.skip(1)))
}

/// `list_wf` is the pointwise statement.
pub proof fn lemma_list_wf_iff(items: Seq<Doc>)
    ensures
        list_wf(items) <==> (forall|i: int| 0 <= i < items.len() ==> #[trigger] doc_wf(items[i])),
    decreases items.len(),
{
    if items.len() > 0 {
        lemma_list_wf_iff(items.skip(1));
        assert(forall|i: int|
            0 <= i < items.skip(1).len() ==> items.skip(1)[i] == items[i + 1]);
        if doc_wf(items[0]) && (forall|i: int|
            0 <= i < items.skip(1).len() ==> #[trigger] doc_wf(items.skip(1)[i])) {
            assert forall|i: int| 0 <= i < items.len() implies #[trigger] doc_wf(items[i]) by {
                if i > 0 {
                    assert(doc_wf(items.skip(1)[i - 1]));
                }
            }
        }
        if forall|i: int| 0 <= i < items.len() ==> #[trigger] doc_wf(items[i]) {
            assert forall|i: int|
                0 <= i < items.skip(1).len() implies #[trigger] doc_wf(items.skip(1)[i]) by {
                assert(doc_wf(items[i + 1]));
            }
        }
    }
}

/// `entries_vals_wf` is the pointwise statement.
pub proof fn lemma_entries_vals_wf_iff(es: Seq<(Seq<char>, Doc)>)
    ensures
        entries_vals_wf(es) <==> (forall|i: int|
            0 <= i < es.len() ==> #[trigger] doc_wf(es[i].1)),
    decreases es.len(),
{
    if es.len() > 0 {
        lemma_entries_vals_wf_iff(es.skip(1));
        assert(forall|i: int| 0 <= i < es.skip(1).len() ==> es.skip(1)[i] == es[i + 1]);
        if doc_wf(es[0].1) && (forall|i: int|
            0 <= i < es.skip(1).len() ==> #[trigger] doc_wf(es.skip(1)[i].1)) {
            assert forall|i: int| 0 <= i < es.len() implies #[trigger] doc_wf(es[i].1) by {
                if i > 0 {
                    assert(doc_wf(es.skip(1)[i - 1].1));
                }
            }
        }
        if forall|i: int| 0 <= i < es.len() ==> #[trigger] doc_wf(es[i].1) {
            assert forall|i: int|
                0 <= i < es.skip(1).len() implies #[trigger] doc_wf(es.skip(1)[i].1) by {
                assert(doc_wf(es[i + 1].1));
            }
        }
    }
}

/// Whether a mapping's entries contain `k`.
pub open spec fn entries_have_key(es: Seq<(Seq<char>, Doc)>, k: Seq<char>) -> bool {
    exists|i: int| 0 <= i < es.len() && es[i].0 == k
}

/// The empty document, the unit the fragment fold starts from.
pub open spec fn empty_doc() -> Doc {
    Doc::Mapping(Seq::empty())
}

/// The merge of two documents: scalars override, lists concatenate, mappings
/// merge key by key, and mismatched shapes refuse to merge.
pub open spec fn merge_doc(a: Doc, b: Doc) -> Option<Doc>
    decreases a, b,
{
    match (a, b) {
        (Doc::Scalar(_), Doc::Scalar(s2)) => Some(Doc::Scalar(s2)),
        (Doc::List(x), Doc::List(y)) => Some(Doc::List(x + y)),
        (Doc::Mapping(x), Doc::Mapping(y)) => match merge_entries(x, y) {
            Some(es) => Some(Doc::Mapping(es)),
            None => None,
        },
        _ => None,
    }
}

/// The merge of two sorted entry sequences: a key on one side alone keeps its
/// value, a key on both sides merges the two values recursively.
pub open spec fn merge_entries(x: Seq<(Seq<char>, Doc)>, y: Seq<(Seq<char>, Doc)>) -> Option<
    Seq<(Seq<char>, Doc)>,
>
    decreases x, y,
{
    if x.len() == 0 {
        Some(y)
    } else if y.len() == 0 {
        Some(x)
    } else if lex_lt(x[0].0, y[0].0) {
        match merge_entries(x.skip(1), y) {
            Some(rest) => Some(seq![x[0]] + rest),
            None => None,
        }
    } else if lex_lt(y[0].0, x[0].0) {
        match merge_entries(x, y.skip(1)) {
            Some(rest) => Some(seq![y[0]] + rest),
            None => None,
        }
    } else {
        match (merge_doc(x[0].1, y[0].1), merge_entries(x.skip(1), y.skip(1))) {
            (Some(v), Some(rest)) => Some(seq![(x[0].0, v)] + rest),
            _ => None,
        }
    }
}

/// A view of list items splits over concatenation.
pub proof fn lemma_doc_list_view_concat(s1: Seq<DocValue>, s2: Seq<DocValue>)
    ensures
        doc_list_view(s1 + s2) == doc_list_view(s1) + doc_list_view(s2),
{
    lemma_doc_list_view_index(s1);
    lemma_doc_list_view_index(s2);
    lemma_doc_list_view_index(s1 + s2);
    assert(doc_list_view(s1 + s2) =~= doc_list_view(s1) + doc_list_view(s2));
}

/// A view of mapping entries splits over concatenation.
pub proof fn lemma_doc_entries_view_concat(s1: Seq<(String, DocValue)>, s2: Seq<(String, DocValue)>)
    ensures
        doc_entries_view(s1 + s2) == doc_entries_view(s1) + doc_entries_view(s2),
{
    lemma_doc_entries_view_index(s1);
    lemma_doc_entries_view_index(s2);
    lemma_doc_entries_view_index(s1 + s2);
    assert(doc_entries_view(s1 + s2) =~= doc_entries_view(s1) + doc_entries_view(s2));
}

/// Sorted entries with a new least entry at the front are still sorted, and
/// still hold well-formed values.
pub proof fn lemma_entries_cons_wf(e: (Seq<char>, Doc), rest: Seq<(Seq<char>, Doc)>)
    requires
        doc_wf(Doc::Mapping(rest)),
        doc_wf(e.1),
        forall|i: int| 0 <= i < rest.len() ==> lex_lt(e.0, #[trigger] rest[i].0),
    ensures
        doc_wf(Doc::Mapping(seq![e] + rest)),
{
    let all = seq![e] + rest;
    assert forall|i: int, j: int| 0 <= i < j < all.len() implies lex_lt(all[i].0, all[j].0) by {
        if i == 0 {
            assert(all[j] == rest[j - 1]);
        } else {
            assert(all[i] == rest[i - 1]);
            assert(all[j] == rest[j - 1]);
        }
    }
    lemma_entries_vals_wf_iff(rest);
    lemma_entries_vals_wf_iff(all);
    assert forall|i: int| 0 <= i < all.len() implies #[trigger] doc_wf(all[i].1) by {
        if i > 0 {
            assert(all[i] == rest[i - 1]);
            assert(doc_wf(rest[i - 1].1));
        } else {
            assert(all[0] == e);
        }
    }
}

/// Inserting `(k, v)` into sorted entries: placed before the first greater
/// key, replacing an equal key.
pub open spec fn entries_insert(es: Seq<(Seq<char>, Doc)>, k: Seq<char>, v: Doc) -> Seq<
    (Seq<char>, Doc),
>
    decreases es.len(),
{
    if es.len() == 0 {
        seq![(k, v)]
    } else if lex_lt(k, es[0].0) {
        seq![(k, v)] + es
    } else if k == es[0].0 {
        seq![(k, v)] + es.skip(1)
    } else {
        seq![es[0]] + entries_insert(es.skip(1), k, v)
    }
}

/// What `entries_insert` does to well-formedness and to the key set.
pub proof fn lemma_entries_insert_wf(es: Seq<(Seq<char>, Doc)>, k: Seq<char>, v: Doc)
    requires
        doc_wf(Doc::Mapping(es)),
        doc_wf(v),
    ensures
        doc_wf(Doc::Mapping(entries_insert(es, k, v))),
        forall|k2: Seq<char>|
            (#[trigger] entries_have_key(entries_insert(es, k, v), k2)) <==> (entries_have_key(
            es, k2) || k2 == k),
    decreases es.len(),
{
    let r = entries_insert(es, k, v);
    lemma_entries_vals_wf_iff(es);
    assert(forall|i: int| 0 <= i < es.len() ==> #[trigger] doc_wf(es[i].1));
    if es.len() == 0 {
        assert(r[0] == (k, v));
        assert(r.skip(1) =~= Seq::<(Seq<char>, Doc)>::empty());
        assert(entries_vals_wf(r.skip(1)));
        assert(entries_vals_wf(r));
        assert forall|k2: Seq<char>|
            entries_have_key(r, k2) <==> (entries_have_key(es, k2) || k2 == k) by {
            if k2 == k {
                assert(r[0].0 == k);
            }
        }
    } else if lex_lt(k, es[0].0) {
        assert forall|i: int| 0 <= i < es.len() implies lex_lt(k, #[trigger] es[i].0) by {
            if i > 0 {
                crate::strutil::lemma_lex_trans(k, es[0].0, es[i].0);
            }
        }
        lemma_entries_cons_wf((k, v), es);
        assert forall|k2: Seq<char>|
            entries_have_key(r, k2) <==> (entries_have_key(es, k2) || k2 == k) by {
            if entries_have_key(r, k2) {
                let i = choose|i: int| 0 <= i < r.len() && r[i].0 == k2;
                if i > 0 {
                    assert(es[i - 1].0 == k2);
                }
            }
            if entries_have_key(es, k2) {
                let i = choose|i: int| 0 <= i < es.len() && es[i].0 == k2;
                assert(r[i + 1].0 == k2);
            }
            if k2 == k {
                assert(r[0].0 == k);
            }
        }
    } else if k == es[0].0 {
        assert(entries_sorted(es.skip(1)));
        assert forall|i: int| 0 <= i < es.skip(1).len() implies #[trigger] doc_wf(
            es.skip(1)[i].1,
        ) by {
            assert(es.skip(1)[i] == es[i + 1]);
            assert(doc_wf(es[i + 1].1));
        }
        assert forall|i: int| 0 <= i < es.skip(1).len() implies lex_lt(
            k,
            #[trigger] es.skip(1)[i].0,
        ) by {
            assert(es.skip(1)[i] == es[i + 1]);
        }
        lemma_entries_vals_wf_iff(es.skip(1));
        assert(doc_wf(Doc::Mapping(es.skip(1))));
        lemma_entries_cons_wf((k, v), es.skip(1));
        assert forall|k2: Seq<char>|
            entries_have_key(r, k2) <==> (entries_have_key(es, k2) || k2 == k) by {
            if entries_have_key(r, k2) {
                let i = choose|i: int| 0 <= i < r.len() && r[i].0 == k2;
                if i > 0 {
                    assert(es[i].0 == k2);
                }
            }
            if entries_have_key(es, k2) {
                let i = choose|i: int| 0 <= i < es.len() && es[i].0 == k2;
                if i == 0 {
                    assert(r[0].0 == k);
                } else {
                    assert(r[i].0 == k2);
                }
            }
            if k2 == k {
                assert(r[0].0 == k);
            }
        }
    } else {
        assert(entries_sorted(es.skip(1)));
        assert forall|i: int| 0 <= i < es.skip(1).len() implies #[trigger] doc_wf(
            es.skip(1)[i].1,
        ) by {
            assert(es.skip(1)[i] == es[i + 1]);
            assert(doc_wf(es[i + 1].1));
        }
        lemma_entries_vals_wf_iff(es.skip(1));
        assert(doc_wf(Doc::Mapping(es.skip(1))));
        lemma_entries_insert_wf(es.skip(1), k, v);
        let rest = entries_insert(es.skip(1), k, v);
        assert forall|i: int| 0 <= i < rest.len() implies lex_lt(es[0].0, #[trigger] rest[i].0) by {
            assert(entries_have_key(rest, rest[i].0));
            if entries_have_key(es.skip(1), rest[i].0) {
                let j = choose|j: int| 0 <= j < es.skip(1).len() && es.skip(1)[j].0 == rest[i].0;
                assert(es.skip(1)[j] == es[j + 1]);
            } else {
                assert(rest[i].0 == k);
                crate::strutil::lemma_lex_trichotomy(k, es[0].0);
            }
        }
        lemma_entries_cons_wf(es[0], rest);
        assert(r == seq![es[0]] + rest);
        assert forall|k2: Seq<char>|
            entries_have_key(r, k2) <==> (entries_have_key(es, k2) || k2 == k) by {
            if entries_have_key(r, k2) {
                let i = choose|i: int| 0 <= i < r.len() && r[i].0 == k2;
                if i == 0 {
                    assert(es[0].0 == k2);
                } else {
                    assert(rest[i - 1].0 == k2);
                    assert(entries_have_key(rest, k2));
                    if entries_have_key(es.skip(1), k2) {
                        let j = choose|j: int|
                            0 <= j < es.skip(1).len() && es.skip(1)[j].0 == k2;
                        assert(es[j + 1].0 == k2);
                    }
                }
            }
            if entries_have_key(es, k2) {
                let i = choose|i: int| 0 <= i < es.len() && es[i].0 == k2;
                if i == 0 {
                    assert(r[0].0 == k2);
                } else {
                    assert(es.skip(1)[i - 1].0 == k2);
                    assert(entries_have_key(es.skip(1), k2));
                    assert(entries_have_key(rest, k2));
                    let j = choose|j: int| 0 <= j < rest.len() && rest[j].0 == k2;
                    assert(r[j + 1].0 == k2);
                }
            }
            if k2 == k {
                assert(entries_have_key(entries_insert(es.skip(1), k, v), k));
                assert(entries_have_key(rest, k));
                let j = choose|j: int| 0 <= j < rest.len() && rest[j].0 == k;
                assert(r[j + 1].0 == k2);
            }
        }
    }
}

/// Folding a sequence of fragments onto an accumulated document, left to
/// right; a failed merge stops the fold.
pub open spec fn merge_docs_from(acc: Doc, s: Seq<Doc>) -> Option<Doc>
    decreases s.len(),
{
    if s.len() == 0 {
        Some(acc)
    } else {
        match merge_doc(acc, s[0]) {
            Some(d) => merge_docs_from(d, s.skip(1)),
            None => None,
        }
    }
}

/// The merge of a whole sequence of fragments, starting from the empty
/// document.
pub open spec fn spec_merge_all(s: Seq<Doc>) -> Option<Doc> {
    merge_docs_from(empty_doc(), s)
}

/// Folding fragments over `s1 + s2` is folding over `s1`, then folding the
/// result over `s2`.
pub proof fn lemma_merge_fold_append(acc: Doc, s1: Seq<Doc>, s2: Seq<Doc>)
    ensures
        merge_docs_from(acc, s1 + s2) == match merge_docs_from(acc, s1) {
            Some(d) => merge_docs_from(d, s2),
            None => None,
        },
    decreases s1.len(),
{
    if s1.len() == 0 {
        assert(s1 + s2 =~= s2);
    } else {
        assert((s1 + s2)[0] == s1[0]);
        assert((s1 + s2).skip(1) =~= s1.skip(1) + s2);
        match merge_doc(acc, s1[0]) {
            Some(d) => {
                lemma_merge_fold_append(d, s1.skip(1), s2);
            },
            None => {
            },
        }
    }
}

/// Two fragments whose shapes do not fit together refuse to merge.  `path`
/// names where in the tree the shapes clashed.
#[derive(Debug, PartialEq, Eq)]
pub struct MergeError {
    pub path: String,
}

fn err_under(key: &String, e: MergeError) -> MergeError {
    let mut path = key.clone();
    if !e.path.as_str().is_empty() {
        path.append("/");
        path.append(e.path.as_str());
    }
    MergeError { path }
}

/// Taking the view commutes with dropping the front entry.
pub proof fn lemma_entries_view_skip_front(s: Seq<(String, DocValue)>)
    requires
        s.len() > 0,
    ensures
        doc_entries_view(s.skip(1)) == doc_entries_view(s).skip(1),
{
    lemma_doc_entries_view_index(s);
    lemma_doc_entries_view_index(s.skip(1));
    assert(forall|i: int| 0 <= i < s.len() - 1 ==> s.skip(1)[i] == s[i + 1]);
    assert(doc_entries_view(s.skip(1)) =~= doc_entries_view(s).skip(1));
}

/// A well-formed mapping with its front entry dropped is still well-formed.
pub proof fn lemma_skip_mapping_wf(ev: Seq<(Seq<char>, Doc)>)
    requires
        ev.len() > 0,
        doc_wf(Doc::Mapping(ev)),
    ensures
        doc_wf(Doc::Mapping(ev.skip(1))),
{
    assert(forall|i: int| 0 <= i < ev.len() - 1 ==> ev.skip(1)[i] == ev[i + 1]);
    assert(entries_sorted(ev.skip(1)));
    lemma_entries_vals_wf_iff(ev);
    lemma_entries_vals_wf_iff(ev.skip(1));
    assert forall|i: int| 0 <= i < ev.skip(1).len() implies #[trigger] doc_wf(
        ev.skip(1)[i].1,
    ) by {
        assert(doc_wf(ev[i + 1].1));
    }
}

/// One step of the entry merge when one side's front key is strictly the
/// least: consing that entry onto the merged remainders keeps the result
/// well-formed, and its keys come from the two inputs.  `side` 0 takes the
/// front of `xv`, any other value the front of `yv`.
proof fn lemma_merge_cons_case(
    xv: Seq<(Seq<char>, Doc)>,
    yv: Seq<(Seq<char>, Doc)>,
    restv: Seq<(Seq<char>, Doc)>,
    side: int,
)
    requires
        xv.len() > 0,
        yv.len() > 0,
        doc_wf(Doc::Mapping(xv)),
        doc_wf(Doc::Mapping(yv)),
        doc_wf(Doc::Mapping(restv)),
        side == 0 ==> lex_lt(xv[0].0, yv[0].0) && (forall|k: Seq<char>|
            #[trigger] entries_have_key(restv, k) ==> entries_have_key(xv.skip(1), k)
                || entries_have_key(yv, k)),
        side != 0 ==> lex_lt(yv[0].0, xv[0].0) && (forall|k: Seq<char>|
            #[trigger] entries_have_key(restv, k) ==> entries_have_key(xv, k)
                || entries_have_key(yv.skip(1), k)),
    ensures
        side == 0 ==> doc_wf(Doc::Mapping(seq![xv[0]] + restv)) && (forall|k: Seq<char>|
            #[trigger] entries_have_key(seq![xv[0]] + restv, k) ==> entries_have_key(xv, k)
                || entries_have_key(yv, k)),
        side != 0 ==> doc_wf(Doc::Mapping(seq![yv[0]] + restv)) && (forall|k: Seq<char>|
            #[trigger] entries_have_key(seq![yv[0]] + restv, k) ==> entries_have_key(xv, k)
                || entries_have_key(yv, k)),
{
    let head = if side == 0 { xv[0] } else { yv[0] };
    lemma_entries_vals_wf_iff(xv);
    lemma_entries_vals_wf_iff(yv);
    assert(doc_wf(head.1));
    assert forall|i: int| 0 <= i < restv.len() implies lex_lt(head.0, #[trigger] restv[i].0) by {
        let k = restv[i].0;
        assert(entries_have_key(restv, k));
        if side == 0 {
            if entries_have_key(xv.skip(1), k) {
                let j = choose|j: int| 0 <= j < xv.skip(1).len() && xv.skip(1)[j].0 == k;
                assert(xv.skip(1)[j] == xv[j + 1]);
                assert(lex_lt(xv[0].0, xv[j + 1].0));
            } else {
                let j = choose|j: int| 0 <= j < yv.len() && yv[j].0 == k;
                if j == 0 {
                } else {
                    crate::strutil::lemma_lex_trans(xv[0].0, yv[0].0, yv[j].0);
                }
            }
        } else {
            if entries_have_key(yv.skip(1), k) {
                let j = choose|j: int| 0 <= j < yv.skip(1).len() && yv.skip(1)[j].0 == k;
                assert(yv.skip(1)[j] == yv[j + 1]);
                assert(lex_lt(yv[0].0, yv[j + 1].0));
            } else {
                let j = choose|j: int| 0 <= j < xv.len() && xv[j].0 == k;
                if j == 0 {
                } else {
                    crate::strutil::lemma_lex_trans(yv[0].0, xv[0].0, xv[j].0);
                }
            }
        }
    }
    lemma_entries_cons_wf(head, restv);
    let all = seq![head] + restv;
    assert forall|k: Seq<char>| #[trigger] entries_have_key(all, k) implies entries_have_key(
        xv,
        k,
    ) || entries_have_key(yv, k) by {
        let i = choose|i: int| 0 <= i < all.len() && all[i].0 == k;
        if i == 0 {
            if side == 0 {
                assert(xv[0].0 == k);
            } else {
                assert(yv[0].0 == k);
            }
        } else {
            assert(restv[i - 1].0 == k);
            assert(entries_have_key(restv, k));
            if side == 0 && entries_have_key(xv.skip(1), k) {
                let j = choose|j: int| 0 <= j < xv.skip(1).len() && xv.skip(1)[j].0 == k;
                assert(xv[j + 1].0 == k);
            }
            if side != 0 && entries_have_key(yv.skip(1), k) {
                let j = choose|j: int| 0 <= j < yv.skip(1).len() && yv.skip(1)[j].0 == k;
                assert(yv[j + 1].0 == k);
            }
        }
    }
}

/// One step of the entry merge when the two front keys are equal: consing the
/// recursively merged value under that key onto the merged remainders.
proof fn lemma_merge_cons_eq_case(
    xv: Seq<(Seq<char>, Doc)>,
    yv: Seq<(Seq<char>, Doc)>,
    restv: Seq<(Seq<char>, Doc)>,
    mv: Doc,
)
    requires
        xv.len() > 0,
        yv.len() > 0,
        doc_wf(Doc::Mapping(xv)),
        doc_wf(Doc::Mapping(yv)),
        doc_wf(Doc::Mapping(restv)),
        doc_wf(mv),
        xv[0].0 == yv[0].0,
        forall|k: Seq<char>|
            #[trigger] entries_have_key(restv, k) ==> entries_have_key(xv.skip(1), k)
                || entries_have_key(yv.skip(1), k),
    ensures
        doc_wf(Doc::Mapping(seq![(xv[0].0, mv)] + restv)),
        forall|k: Seq<char>|
            #[trigger] entries_have_key(seq![(xv[0].0, mv)] + restv, k) ==> entries_have_key(
                xv,
                k,
            ) || entries_have_key(yv, k),
{
    let head = (xv[0].0, mv);
    assert forall|i: int| 0 <= i < restv.len() implies lex_lt(head.0, #[trigger] restv[i].0) by {
        let k = restv[i].0;
        assert(entries_have_key(restv, k));
        if entries_have_key(xv.skip(1), k) {
            let j = choose|j: int| 0 <= j < xv.skip(1).len() && xv.skip(1)[j].0 == k;
            assert(xv.skip(1)[j] == xv[j + 1]);
            assert(lex_lt(xv[0].0, xv[j + 1].0));
        } else {
            let j = choose|j: int| 0 <= j < yv.skip(1).len() && yv.skip(1)[j].0 == k;
            assert(yv.skip(1)[j] == yv[j + 1]);
            assert(lex_lt(yv[0].0, yv[j + 1].0));
        }
    }
    lemma_entries_cons_wf(head, restv);
    let all = seq![head] + restv;
    assert forall|k: Seq<char>| #[trigger] entries_have_key(all, k) implies entries_have_key(
        xv,
        k,
    ) || entries_have_key(yv, k) by {
        let i = choose|i: int| 0 <= i < all.len() && all[i].0 == k;
        if i == 0 {
            assert(xv[0].0 == k);
        } else {
            assert(restv[i - 1].0 == k);
            assert(entries_have_key(restv, k));
            if entries_have_key(xv.skip(1), k) {
                let j = choose|j: int| 0 <= j < xv.skip(1).len() && xv.skip(1)[j].0 == k;
                assert(xv[j + 1].0 == k);
            } else {
                let j = choose|j: int| 0 <= j < yv.skip(1).len() && yv.skip(1)[j].0 == k;
                assert(yv[j + 1].0 == k);
            }
        }
    }
}

/// The merge of two well-formed document values, or the error if their shapes
/// clash.  The result is again well-formed.
fn merge_value(a: DocValue, b: DocValue) -> (r: Result<DocValue, MergeError>)
    requires
        doc_wf(doc_view(a)),
        doc_wf(doc_view(b)),
    ensures
        match r {
            Ok(v) => merge_doc(doc_view(a), doc_view(b)) == Some(doc_view(v)) && doc_wf(
                doc_view(v),
            ),
            Err(_) => merge_doc(doc_view(a), doc_view(b)) is None,
        },
    decreases dv_size(a) + dv_size(b),
{
    match (a, b) {
        (DocValue::Scalar(_s1), DocValue::Scalar(s2)) => Ok(DocValue::Scalar(s2)),
        (DocValue::List(x), DocValue::List(y)) => {
            let ghost xv = x@;
            let ghost yv = y@;
            let mut x = x;
            let mut y = y;
            x.append(&mut y);
            proof {
                lemma_doc_list_view_concat(xv, yv);
                let lxv = doc_list_view(xv);
                let lyv = doc_list_view(yv);
                lemma_list_wf_iff(lxv);
                lemma_list_wf_iff(lyv);
                lemma_list_wf_iff(lxv + lyv);
                assert forall|i: int| 0 <= i < (lxv + lyv).len() implies #[trigger] doc_wf(
                    (lxv + lyv)[i],
                ) by {
                    if i < lxv.len() {
                        assert((lxv + lyv)[i] == lxv[i]);
                        assert(doc_wf(lxv[i]));
                    } else {
                        assert((lxv + lyv)[i] == lyv[i - lxv.len()]);
                        assert(doc_wf(lyv[i - lxv.len()]));
                    }
                }
            }
            Ok(DocValue::List(x))
        },
        (DocValue::Mapping(x), DocValue::Mapping(y)) => {
            match merge_entry_vecs(x, y) {
                Ok(es) => Ok(DocValue::Mapping(es)),
                Err(e) => Err(e),
            }
        },
        (a2, b2) => {
            proof {
                assert(merge_doc(doc_view(a2), doc_view(b2)) is None);
            }
            Err(MergeError { path: String::new() })
        },
    }
}

/// The merge of two well-formed, sorted entry vectors.
fn merge_entry_vecs(x: Vec<(String, DocValue)>, y: Vec<(String, DocValue)>) -> (r: Result<
    Vec<(String, DocValue)>,
    MergeError,
>)
    requires
        doc_wf(Doc::Mapping(doc_entries_view(x@))),
        doc_wf(Doc::Mapping(doc_entries_view(y@))),
    ensures
        match r {
            Ok(v) => merge_entries(doc_entries_view(x@), doc_entries_view(y@)) == Some(
                doc_entries_view(v@),
            ) && doc_wf(Doc::Mapping(doc_entries_view(v@))) && (forall|k: Seq<char>|
                #[trigger] entries_have_key(doc_entries_view(v@), k) ==> entries_have_key(
                    doc_entries_view(x@),
                    k,
                ) || entries_have_key(doc_entries_view(y@), k)),
            Err(_) => merge_entries(doc_entries_view(x@), doc_entries_view(y@)) is None,
        },
    decreases dv_entries_size(x@) + dv_entries_size(y@),
{
    let ghost xs0 = x@;
    let ghost ys0 = y@;
    let ghost xv = doc_entries_view(x@);
    let ghost yv = doc_entries_view(y@);
    proof {
        lemma_doc_entries_view_index(xs0);
        lemma_doc_entries_view_index(ys0);
    }
    if x.is_empty() {
        return Ok(y);
    }
    if y.is_empty() {
        return Ok(x);
    }
    let mut x = x;
    let mut y = y;
    let c = {
        let xe0 = &x[0];
        let ye0 = &y[0];
        crate::strutil::str_cmp(xe0.0.as_str(), ye0.0.as_str())
    };
    if c < 0 {
        let xe = x.remove(0);
        proof {
            assert(x@ =~= xs0.skip(1));
            lemma_entries_view_skip_front(xs0);
            lemma_skip_mapping_wf(xv);
        }
        match merge_entry_vecs(x, y) {
            Ok(mut rest) => {
                let ghost rs0 = rest@;
                let ghost restv = doc_entries_view(rest@);
                rest.insert(0, xe);
                proof {
                    lemma_merge_cons_case(xv, yv, restv, 0);
                    assert(rest@ =~= seq![xe] + rs0);
                    lemma_doc_entries_view_concat(seq![xe], rs0);
                    lemma_doc_entries_view_index(seq![xe]);
                    assert(doc_entries_view(seq![xe]) =~= seq![(xe.0@, doc_view(xe.1))]);
                    assert(doc_entries_view(rest@) =~= seq![xv[0]] + restv);
                }
                Ok(rest)
            },
            Err(e) => Err(e),
        }
    } else if c > 0 {
        let ye = y.remove(0);
        proof {
            assert(y@ =~= ys0.skip(1));
            lemma_entries_view_skip_front(ys0);
            lemma_skip_mapping_wf(yv);
        }
        match merge_entry_vecs(x, y) {
            Ok(mut rest) => {
                let ghost rs0 = rest@;
                let ghost restv = doc_entries_view(rest@);
                rest.insert(0, ye);
                proof {
                    lemma_merge_cons_case(xv, yv, restv, 1);
                    assert(rest@ =~= seq![ye] + rs0);
                    lemma_doc_entries_view_concat(seq![ye], rs0);
                    lemma_doc_entries_view_index(seq![ye]);
                    assert(doc_entries_view(seq![ye]) =~= seq![(ye.0@, doc_view(ye.1))]);
                    assert(doc_entries_view(rest@) =~= seq![yv[0]] + restv);
                }
                Ok(rest)
            },
            Err(e) => Err(e),
        }
    } else {
        let xe = x.remove(0);
        let ye = y.remove(0);
        proof {
            assert(x@ =~= xs0.skip(1));
            assert(y@ =~= ys0.skip(1));
            lemma_entries_view_skip_front(xs0);
            lemma_entries_view_skip_front(ys0);
            lemma_skip_mapping_wf(xv);
            lemma_skip_mapping_wf(yv);
            lemma_entries_vals_wf_iff(xv);
            lemma_entries_vals_wf_iff(yv);
        }
        let (kx, vx) = xe;
        let (_ky, vy) = ye;
        let merged = match merge_value(vx, vy) {
            Ok(v) => v,
            Err(e) => {
                return Err(err_under(&kx, e));
            },
        };
        match merge_entry_vecs(x, y) {
            Ok(mut rest) => {
                let ghost rs0 = rest@;
                let ghost restv = doc_entries_view(rest@);
                let ghost mv = doc_view(merged);
                rest.insert(0, (kx, merged));
                proof {
                    lemma_merge_cons_eq_case(xv, yv, restv, mv);
                    assert(rest@ =~= seq![rest@[0]] + rs0);
                    lemma_doc_entries_view_concat(seq![rest@[0]], rs0);
                    lemma_doc_entries_view_index(seq![rest@[0]]);
                    assert(doc_entries_view(rest@) =~= seq![(xv[0].0, mv)] + restv);
                }
                Ok(rest)
            },
            Err(e) => Err(e),
        }
    }
}

/// Merging is associative with respect to the left-to-right fold: merging the
/// fragments `frags + [last]` in one pass equals merging `frags` first and
/// then merging that result with `last`.
pub proof fn lemma_merge_associative_in_order(frags: Seq<Doc>, last: Doc)
    ensures
        spec_merge_all(frags.push(last)) == match spec_merge_all(frags) {
            Some(d) => merge_doc(d, last),
            None => None,
        },
{
    assert(frags.push(last) =~= frags + seq![last]);
    lemma_merge_fold_append(empty_doc(), frags, seq![last]);
    match spec_merge_all(frags) {
        Some(d) => {
            assert(seq![last][0] == last);
            assert(seq![last].skip(1) =~= Seq::<Doc>::empty());
            match merge_doc(d, last) {
                Some(d2) => {
                    assert(merge_docs_from(d2, Seq::<Doc>::empty()) == Some(d2));
                    assert(merge_docs_from(d, seq![last]) == Some(d2));
                },
                None => {
                    assert(merge_docs_from(d, seq![last]) is None);
                },
            }
        },
        None => {
        },
    }
}

/// Entries strictly below `k` at the front pass through an insert unchanged.
proof fn lemma_entries_insert_split(ev: Seq<(Seq<char>, Doc)>, k: Seq<char>, v: Doc, i: int)
    requires
        0 <= i <= ev.len(),
        forall|j: int| 0 <= j < i ==> lex_lt(#[trigger] ev[j].0, k),
    ensures
        entries_insert(ev, k, v) == ev.take(i) + entries_insert(ev.skip(i), k, v),
    decreases i,
{
    if i == 0 {
        assert(ev.take(0) =~= Seq::<(Seq<char>, Doc)>::empty());
        assert(ev.skip(0) =~= ev);
        assert(entries_insert(ev, k, v) =~= ev.take(0) + entries_insert(ev.skip(0), k, v));
    } else {
        assert(lex_lt(ev[0].0, k));
        crate::strutil::lemma_lex_trichotomy(k, ev[0].0);
        assert(entries_insert(ev, k, v) == seq![ev[0]] + entries_insert(ev.skip(1), k, v));
        assert(forall|j: int| 0 <= j < ev.len() - 1 ==> ev.skip(1)[j] == ev[j + 1]);
        lemma_entries_insert_split(ev.skip(1), k, v, i - 1);
        assert(ev.skip(1).skip(i - 1) =~= ev.skip(i));
        assert(seq![ev[0]] + (ev.skip(1).take(i - 1) + entries_insert(ev.skip(i), k, v)) =~= (
        seq![ev[0]] + ev.skip(1).take(i - 1)) + entries_insert(ev.skip(i), k, v));
        assert(seq![ev[0]] + ev.skip(1).take(i - 1) =~= ev.take(i));
    }
}

/// The first position whose key is not strictly below `k`, in a vector of
/// entries sorted by key.
fn find_pos(es: &Vec<(String, DocValue)>, k: &str) -> (i: usize)
    ensures
        0 <= i <= es@.len(),
        forall|j: int| 0 <= j < i ==> lex_lt(#[trigger] es@[j].0@, k@),
        i < es@.len() ==> !lex_lt(es@[i as int].0@, k@),
{
    let mut i: usize = 0;
    while i < es.len()
        invariant
            i <= es@.len(),
            forall|j: int| 0 <= j < i ==> lex_lt(#[trigger] es@[j].0@, k@),
        decreases es@.len() - i,
    {
        let e = &es[i];
        if !crate::strutil::str_lt(e.0.as_str(), k) {
            return i;
        }
        i += 1;
    }
    i
}

/// Sorted insert of `(k, v)` into an entry vector, replacing an equal key.
fn entry_vec_insert(es: &mut Vec<(String, DocValue)>, k: String, v: DocValue)
    requires
        doc_wf(Doc::Mapping(doc_entries_view(old(es)@))),
        doc_wf(doc_view(v)),
    ensures
        doc_entries_view(final(es)@) == entries_insert(
            doc_entries_view(old(es)@),
            k@,
            doc_view(v),
        ),
        doc_wf(Doc::Mapping(doc_entries_view(final(es)@))),
{
    let ghost es0 = old(es)@;
    let ghost ev = doc_entries_view(es0);
    let ghost vv = doc_view(v);
    proof {
        lemma_doc_entries_view_index(es0);
        lemma_entries_insert_wf(ev, k@, vv);
    }
    let i = find_pos(es, k.as_str());
    proof {
        lemma_entries_insert_split(ev, k@, vv, i as int);
    }
    let replace = if i < es.len() {
        let e = &es[i];
        crate::strutil::str_eq(e.0.as_str(), k.as_str())
    } else {
        false
    };
    if replace {
        proof {
            crate::strutil::lemma_lex_trichotomy(k@, k@);
            assert(ev.skip(i as int)[0] == ev[i as int]);
            assert(ev.skip(i as int).skip(1) =~= ev.skip(i as int + 1));
            assert(entries_insert(ev.skip(i as int), k@, vv) == seq![(k@, vv)] + ev.skip(
                i as int + 1,
            ));
        }
        let _replaced = es.remove(i);
        es.insert(i, (k, v));
        proof {
            assert(es@ =~= es0.take(i as int) + seq![es@[i as int]] + es0.skip(i as int + 1));
            lemma_doc_entries_view_index(es@);
            assert(doc_entries_view(es@) =~= ev.take(i as int) + (seq![(k@, vv)] + ev.skip(
                i as int + 1,
            )));
        }
    } else {
        proof {
            if i < es@.len() {
                assert(ev[i as int].0 == es0[i as int].0@);
                crate::strutil::lemma_lex_trichotomy(k@, ev[i as int].0);
                assert(lex_lt(k@, ev.skip(i as int)[0].0));
                assert(entries_insert(ev.skip(i as int), k@, vv) == seq![(k@, vv)] + ev.skip(
                    i as int,
                ));
            } else {
                assert(ev.skip(i as int) =~= Seq::<(Seq<char>, Doc)>::empty());
                assert(entries_insert(ev.skip(i as int), k@, vv) =~= seq![(k@, vv)] + ev.skip(
                    i as int,
                ));
            }
        }
        es.insert(i, (k, v));
        proof {
            assert(es@ =~= es0.take(i as int) + seq![es@[i as int]] + es0.skip(i as int));
            lemma_doc_entries_view_index(es@);
            assert(doc_entries_view(es@) =~= ev.take(i as int) + (seq![(k@, vv)] + ev.skip(
                i as int,
            )));
        }
    }
}

/// A well-formed declarative document: what one fragment file holds, and what
/// the merger folds fragments into.
#[derive(Debug, PartialEq, Eq)]
pub struct Document {
    v: DocValue,
}

impl View for Document {
    type V = Doc;

    closed spec fn view(&self) -> Doc {
        doc_view(self.v)
    }
}

/// The abstract documents of a sequence of `Document`s.
pub open spec fn docs_view(s: Seq<Document>) -> Seq<Doc>
    decreases s.len(),
{
    if s.len() == 0 {
        Seq::empty()
    } else {
        docs_view(s.drop_last()).push(s.last()@)
    }
}

/// `docs_view` is pointwise.
pub broadcast proof fn lemma_docs_view_index(s: Seq<Document>)
    ensures
        (#[trigger] docs_view(s)).len() == s.len(),
        forall|i: int| 0 <= i < s.len() ==> docs_view(s)[i] == s[i]@,
    decreases s.len(),
{
    if s.len() > 0 {
        lemma_docs_view_index(s.drop_last());
    }
}

/// The abstract entries of a sequence of key/document pairs.
pub open spec fn doc_pairs_view(s: Seq<(String, Document)>) -> Seq<(Seq<char>, Doc)>
    decreases s.len(),
{
    if s.len() == 0 {
        Seq::empty()
    } else {
        doc_pairs_view(s.drop_last()).push((s.last().0@, s.last().1@))
    }
}

/// `doc_pairs_view` is pointwise.
pub broadcast proof fn lemma_doc_pairs_view_index(s: Seq<(String, Document)>)
    ensures
        (#[trigger] doc_pairs_view(s)).len() == s.len(),
        forall|i: int| 0 <= i < s.len() ==> doc_pairs_view(s)[i] == (s[i].0@, s[i].1@),
    decreases s.len(),
{
    if s.len() > 0 {
        lemma_doc_pairs_view_index(s.drop_last());
    }
}

/// The mapping that inserting `ps` left to right into the empty mapping
/// builds: keys come out sorted, and a later pair with a repeated key
/// overrides the earlier one.
pub open spec fn entries_of_pairs(ps: Seq<(Seq<char>, Doc)>) -> Seq<(Seq<char>, Doc)>
    decreases ps.len(),
{
    if ps.len() == 0 {
        Seq::empty()
    } else {
        entries_insert(entries_of_pairs(ps.drop_last()), ps.last().0, ps.last().1)
    }
}

impl Document {
    #[verifier::type_invariant]
    spec fn wf(self) -> bool {
        doc_wf(doc_view(self.v))
    }

    /// A scalar document.
    pub fn scalar(s: ScalarVal) -> (r: Document)
        ensures
            r@ == Doc::Scalar(s.deep_view()),
    {
        Document { v: DocValue::Scalar(s) }
    }

    /// A list document of the given items, in order.
    pub fn list(items: Vec<Document>) -> (r: Document)
        ensures
            r@ == Doc::List(docs_view(items@)),
    {
        let ghost iv = items@;
        let mut items = items;
        let mut vals: Vec<DocValue> = Vec::new();
        proof {
            lemma_docs_view_index(iv);
        }
        while !items.is_empty()
            invariant
                items@ =~= iv.skip(iv.len() - items@.len()),
                items@.len() <= iv.len(),
                doc_list_view(vals@) =~= docs_view(iv).take(iv.len() - items@.len()),
                doc_wf(Doc::List(doc_list_view(vals@))),
                forall|i: int| 0 <= i < iv.len() ==> docs_view(iv)[i] == iv[i]@,
                docs_view(iv).len() == iv.len(),
            decreases items@.len(),
        {
            let ghost j = iv.len() - items@.len();
            let d = items.remove(0);
            proof {
                use_type_invariant(&d);
                assert(d == iv[j]);
            }
            let ghost vals0 = vals@;
            vals.push(d.v);
            proof {
                assert(vals@.drop_last() =~= vals0);
                assert(doc_list_view(vals@) == doc_list_view(vals0).push(doc_view(d.v)));
                assert(doc_list_view(vals@) =~= docs_view(iv).take(j + 1));
                lemma_list_wf_iff(doc_list_view(vals0));
                lemma_list_wf_iff(doc_list_view(vals@));
                assert forall|i: int| 0 <= i < doc_list_view(vals@).len() implies #[trigger] doc_wf(
                    doc_list_view(vals@)[i],
                ) by {
                    if i < doc_list_view(vals0).len() {
                        assert(doc_list_view(vals@)[i] == doc_list_view(vals0)[i]);
                    }
                }
                assert(items@ =~= iv.skip(iv.len() - items@.len()));
            }
        }
        proof {
            assert(doc_list_view(vals@) =~= docs_view(iv));
        }
        Document { v: DocValue::List(vals) }
    }

    /// The empty mapping document, the unit the fragment fold starts from.
    pub fn mapping() -> (r: Document)
        ensures
            r@ == empty_doc(),
    {
        Document { v: DocValue::Mapping(Vec::new()) }
    }

    /// A mapping document built from `pairs`, inserted left to right: keys
    /// come out sorted lexicographically, and a later duplicate key silently
    /// overrides the earlier one.
    pub fn mapping_of(pairs: Vec<(String, Document)>) -> (r: Document)
        ensures
            r@ == Doc::Mapping(entries_of_pairs(doc_pairs_view(pairs@))),
    {
        let ghost pv = doc_pairs_view(pairs@);
        let ghost ps0 = pairs@;
        let mut pairs = pairs;
        let mut es: Vec<(String, DocValue)> = Vec::new();
        proof {
            lemma_doc_pairs_view_index(ps0);
        }
        while !pairs.is_empty()
            invariant
                pairs@ =~= ps0.skip(ps0.len() - pairs@.len()),
                pairs@.len() <= ps0.len(),
                doc_entries_view(es@) == entries_of_pairs(pv.take(ps0.len() - pairs@.len())),
                doc_wf(Doc::Mapping(doc_entries_view(es@))),
                pv == doc_pairs_view(ps0),
                pv.len() == ps0.len(),
                forall|i: int| 0 <= i < ps0.len() ==> pv[i] == (ps0[i].0@, ps0[i].1@),
            decreases pairs@.len(),
        {
            let ghost j = ps0.len() - pairs@.len();
            let (k, d) = pairs.remove(0);
            proof {
                use_type_invariant(&d);
                assert((k, d) == ps0[j]);
            }
            entry_vec_insert(&mut es, k, d.v);
            proof {
                crate::strutil::lemma_take_push(pv, j);
                assert(pv.take(j + 1).drop_last() =~= pv.take(j));
                assert(entries_of_pairs(pv.take(j + 1)) == entries_insert(
                    entries_of_pairs(pv.take(j)),
                    pv[j].0,
                    pv[j].1,
                ));
            }
        }
        proof {
            assert(pv.take(ps0.len() as int) =~= pv);
        }
        Document { v: DocValue::Mapping(es) }
    }

    /// A borrow of the underlying tree, with its well-formedness.
    pub fn as_value(&self) -> (r: &DocValue)
        ensures
            doc_view(*r) == self@,
            doc_wf(self@),
    {
        proof {
            use_type_invariant(self);
        }
        &self.v
    }

    /// Merge `self` with a later fragment `other`: scalars override, lists
    /// concatenate, mappings merge key by key, and any other combination of
    /// shapes is a `MergeError`.
    pub fn merge(self, other: Document) -> (r: Result<Document, MergeError>)
        ensures
            match r {
                Ok(d) => merge_doc(self@, other@) == Some(d@),
                Err(_) => merge_doc(self@, other@) is None,
            },
    {
        proof {
            use_type_invariant(&self);
            use_type_invariant(&other);
        }
        match merge_value(self.v, other.v) {
            Ok(v) => Ok(Document { v }),
            Err(e) => Err(e),
        }
    }
}

/// Merge a sequence of fragments left to right, starting from the empty
/// document, as the fold `spec_merge_all` says.
pub fn merge_all(frags: Vec<Document>) -> (r: Result<Document, MergeError>)
    ensures
        match r {
            Ok(d) => spec_merge_all(docs_view(frags@)) == Some(d@),
            Err(_) => spec_merge_all(docs_view(frags@)) is None,
        },
{
    let ghost allv = docs_view(frags@);
    let ghost fs0 = frags@;
    proof {
        lemma_docs_view_index(fs0);
    }
    let mut rem = frags;
    let mut acc = Document::mapping();
    proof {
        assert(allv.skip(0) =~= allv);
    }
    while !rem.is_empty()
        invariant
            rem@ =~= fs0.skip(fs0.len() - rem@.len()),
            rem@.len() <= fs0.len(),
            merge_docs_from(acc@, allv.skip(fs0.len() - rem@.len())) == spec_merge_all(allv),
            allv == docs_view(fs0),
            allv == docs_view(frags@),
            allv.len() == fs0.len(),
            forall|i: int| 0 <= i < fs0.len() ==> allv[i] == fs0[i]@,
        decreases rem@.len(),
    {
        let ghost j = fs0.len() - rem@.len();
        let f = rem.remove(0);
        proof {
            assert(f == fs0[j]);
            assert(allv.skip(j)[0] == allv[j]);
            assert(allv.skip(j).skip(1) =~= allv.skip(j + 1));
        }
        match acc.merge(f) {
            Ok(d) => {
                acc = d;
            },
            Err(e) => {
                proof {
                    assert(allv.skip(j)[0] == f@);
                    assert(merge_docs_from(acc@, allv.skip(j)) is None);
                    assert(spec_merge_all(allv) is None);
                }
                return Err(e);
            },
        }
    }
    proof {
        assert(allv.skip(fs0.len() as int) =~= Seq::<Doc>::empty());
        assert(merge_docs_from(acc@, Seq::<Doc>::empty()) == Some(acc@));
    }
    Ok(acc)
}

} // verus!
