use vstd::prelude::*;
use vstd::pervasive::VecAdditionalExecFns;

use crate::compiler_errors::entry_views;
use crate::diagnostic::{
    duplicate_all, is_ignore_response, lemma_views_push, views, CCSCResponse, Diagnostic, DiagnosticView,
};
use crate::document::{change_views, outcome, reparsed, ContentChange, TextDocument};
use crate::syntax::{tree_diagnostics, SyntaxNode};
use crate::error::LsError;
use crate::mcp::MPLABProjectConfig;
use crate::paths::{extension_of, is_source_extension_spec, is_source_file, join_path, path_joined, str_eq};

verus! {

broadcast use vstd::seq::group_seq_axioms, vstd::std_specs::vec::group_vec_axioms;

/// A tracked path: either not analysed, or a parsed source document.
pub enum TextDocumentType {
    Ignored,
    Source(TextDocument),
}

/// The index of tracked documents with the project they belong to.
pub struct BackendInner {
    root_path: Option<String>,
    mcp: Option<MPLABProjectConfig>,
    docs: Vec<(String, TextDocumentType)>,
}

/// Each path stands once in the index.
pub open spec fn unique_keys(d: Seq<(String, TextDocumentType)>) -> bool {
    forall|i: int, j: int| 0 <= i < j < d.len() ==> (#[trigger] d[i]).0@ != (#[trigger] d[j]).0@
}

/// Each path stands once in a batch.
pub open spec fn unique_batch(b: Seq<(String, Vec<Diagnostic>)>) -> bool {
    forall|i: int, j: int| 0 <= i < j < b.len() ==> (#[trigger] b[i]).0@ != (#[trigger] b[j]).0@
}

/// The compiler diagnostics of an entry: none for an ignored path.
pub open spec fn entry_diagnostics(t: TextDocumentType) -> Option<Seq<DiagnosticView>> {
    match t {
        TextDocumentType::Source(d) => Some(views(d.compiler_diagnostics@)),
        TextDocumentType::Ignored => None,
    }
}

/// The diagnostics a batch holds for path `p`, if it names it.
pub open spec fn batch_lookup(b: Seq<(String, Vec<Diagnostic>)>, p: Seq<char>) -> Option<Seq<DiagnosticView>>
    decreases b.len(),
{
    if b.len() == 0 {
        None
    } else if b.last().0@ == p {
        Some(views(b.last().1@))
    } else {
        batch_lookup(b.drop_last(), p)
    }
}

pub open spec fn has_key(d: Seq<(String, TextDocumentType)>, p: Seq<char>) -> bool {
    exists|i: int| 0 <= i < d.len() && (#[trigger] d[i]).0@ == p
}

/// The entry of path `p`, if the index tracks it.
pub open spec fn entry_of(d: Seq<(String, TextDocumentType)>, p: Seq<char>) -> Option<TextDocumentType> {
    if has_key(d, p) {
        Some(d[choose|i: int| 0 <= i < d.len() && (#[trigger] d[i]).0@ == p].1)
    } else {
        None
    }
}

/// A path that gets the "Document is ignored" answer: untracked or ignored.
pub open spec fn is_ignored_path(d: Seq<(String, TextDocumentType)>, p: Seq<char>) -> bool {
    match entry_of(d, p) {
        Some(TextDocumentType::Source(_)) => false,
        _ => true,
    }
}

proof fn lemma_entry_at(d: Seq<(String, TextDocumentType)>, i: int)
    requires
        unique_keys(d),
        0 <= i < d.len(),
    ensures
        entry_of(d, d[i].0@) == Some(d[i].1),
{
    assert(has_key(d, d[i].0@));
    let j = choose|j: int| 0 <= j < d.len() && (#[trigger] d[j]).0@ == d[i].0@;
    if j != i {
        if j < i {
            assert(d[j].0@ != d[i].0@);
        } else {
            assert(d[i].0@ != d[j].0@);
        }
    }
}

/// `new` is the index `old` after ingesting `b`: every source document's
/// compiler diagnostics are those the batch holds for its path, or none; the
/// documents are otherwise as they were; paths of the batch that were not
/// tracked are added as ignored.
pub open spec fn ingested(old: Seq<(String, TextDocumentType)>, new: Seq<(String, TextDocumentType)>, b: Seq<(String, Vec<Diagnostic>)>) -> bool {
    &&& new.len() >= old.len()
    &&& unique_keys(new)
    &&& forall|i: int| 0 <= i < old.len() ==> (#[trigger] new[i]).0@ == old[i].0@
    &&& forall|i: int| 0 <= i < old.len() ==> match (#[trigger] new[i]).1 {
        TextDocumentType::Source(d) => old[i].1 matches TextDocumentType::Source(od)
            && d.source == od.source && d.syntax_tree == od.syntax_tree && d.absolute_path == od.absolute_path
            && d.included_files == od.included_files
            && views(d.compiler_diagnostics@) == match batch_lookup(b, new[i].0@) {
                Some(ds) => ds,
                None => Seq::empty(),
            },
        TextDocumentType::Ignored => old[i].1 is Ignored,
    }
    &&& forall|j: int| old.len() <= j < new.len() ==> (#[trigger] new[j]).1 is Ignored
        && batch_lookup(b, new[j].0@) is Some && !has_key(old, new[j].0@)
    &&& forall|k: int| 0 <= k < b.len() ==> has_key(new, (#[trigger] b[k]).0@)
}

proof fn lemma_lookup_some(b: Seq<(String, Vec<Diagnostic>)>, k: int)
    requires
        0 <= k < b.len(),
    ensures
        batch_lookup(b, b[k].0@) is Some,
    decreases b.len(),
{
    if b.last().0@ != b[k].0@ {
        assert(k < b.len() - 1);
        assert(b.drop_last()[k] == b[k]);
        lemma_lookup_some(b.drop_last(), k);
    }
}

/// Ingesting the same batch twice leaves every document with the compiler
/// diagnostics the first ingestion gave it, and adds no path.
pub proof fn lemma_ingest_twice(
    a: Seq<(String, TextDocumentType)>,
    b: Seq<(String, TextDocumentType)>,
    c: Seq<(String, TextDocumentType)>,
    batch: Seq<(String, Vec<Diagnostic>)>,
)
    requires
        ingested(a, b, batch),
        ingested(b, c, batch),
    ensures
        c.len() == b.len(),
        forall|i: int| 0 <= i < b.len() ==> (#[trigger] c[i]).0@ == b[i].0@
            && entry_diagnostics(c[i].1) == entry_diagnostics(b[i].1),
{
    if c.len() > b.len() {
        let j = b.len() as int;
        assert(c[j].1 is Ignored && batch_lookup(batch, c[j].0@) is Some && !has_key(b, c[j].0@));
        lemma_lookup_in_batch(batch, c[j].0@);
        let k = choose|k: int| 0 <= k < batch.len() && batch[k].0@ == c[j].0@;
        assert(has_key(b, batch[k].0@));
    }
    assert forall|i: int| 0 <= i < b.len() implies (#[trigger] c[i]).0@ == b[i].0@
        && entry_diagnostics(c[i].1) == entry_diagnostics(b[i].1) by {
        if i >= a.len() {
            assert(b[i].1 is Ignored);
        }
    }
}

proof fn lemma_lookup_in_batch(b: Seq<(String, Vec<Diagnostic>)>, p: Seq<char>)
    requires
        batch_lookup(b, p) is Some,
    ensures
        exists|k: int| 0 <= k < b.len() && b[k].0@ == p,
    decreases b.len(),
{
    if b.last().0@ != p {
        lemma_lookup_in_batch(b.drop_last(), p);
        let k = choose|k: int| 0 <= k < b.drop_last().len() && b.drop_last()[k].0@ == p;
        assert(b[k] == b.drop_last()[k]);
    } else {
        assert(b[b.len() - 1].0@ == p);
    }
}

fn find_doc(docs: &Vec<(String, TextDocumentType)>, p: &str) -> (r: Option<usize>)
    ensures
        match r {
            Some(i) => i < docs@.len() && docs@[i as int].0@ == p@,
            None => !has_key(docs@, p@),
        },
{
    let mut i: usize = 0;
    while i < docs.len()
        invariant
            i <= docs@.len(),
            forall|k: int| 0 <= k < i ==> (#[trigger] docs@[k]).0@ != p@,
        decreases docs@.len() - i,
    {
        if str_eq(docs[i].0.as_str(), p) {
            return Some(i);
        }
        i = i + 1;
    }
    None
}

/// Has a key exactly when its entry is some.
proof fn lemma_has_key_entry(d: Seq<(String, TextDocumentType)>, q: Seq<char>)
    ensures
        has_key(d, q) <==> entry_of(d, q) is Some,
{
}

/// Replacing the entry at `i` by one of the same path changes that path's
/// entry and no other.
proof fn lemma_entry_update(d: Seq<(String, TextDocumentType)>, i: int, e: (String, TextDocumentType))
    requires
        unique_keys(d),
        0 <= i < d.len(),
        d[i].0@ == e.0@,
    ensures
        unique_keys(d.update(i, e)),
        entry_of(d.update(i, e), e.0@) == Some(e.1),
        forall|q: Seq<char>| q != e.0@ ==> #[trigger] entry_of(d.update(i, e), q) == entry_of(d, q),
{
    let n = d.update(i, e);
    assert forall|a: int, b: int| 0 <= a < b < n.len() implies (#[trigger] n[a]).0@ != (#[trigger] n[b]).0@ by {
        assert(n[a].0@ == d[a].0@);
        assert(n[b].0@ == d[b].0@);
    }
    lemma_entry_at(n, i);
    assert forall|q: Seq<char>| q != e.0@ implies #[trigger] entry_of(n, q) == entry_of(d, q) by {
        if has_key(d, q) {
            let m = choose|m: int| 0 <= m < d.len() && (#[trigger] d[m]).0@ == q;
            lemma_entry_at(d, m);
            assert(n[m] == d[m]);
            lemma_entry_at(n, m);
        } else {
            if has_key(n, q) {
                let m = choose|m: int| 0 <= m < n.len() && (#[trigger] n[m]).0@ == q;
                assert(d[m].0@ == q);
            }
        }
    }
}

/// Adding an entry of a new path gives that path its entry and changes no other.
proof fn lemma_entry_push(d: Seq<(String, TextDocumentType)>, e: (String, TextDocumentType))
    requires
        unique_keys(d),
        !has_key(d, e.0@),
    ensures
        unique_keys(d.push(e)),
        entry_of(d.push(e), e.0@) == Some(e.1),
        forall|q: Seq<char>| q != e.0@ ==> #[trigger] entry_of(d.push(e), q) == entry_of(d, q),
{
    let n = d.push(e);
    assert forall|a: int, b: int| 0 <= a < b < n.len() implies (#[trigger] n[a]).0@ != (#[trigger] n[b]).0@ by {
        if b == d.len() {
            assert(n[a] == d[a]);
        } else {
            assert(n[a] == d[a]);
            assert(n[b] == d[b]);
        }
    }
    lemma_entry_at(n, d.len() as int);
    assert forall|q: Seq<char>| q != e.0@ implies #[trigger] entry_of(n, q) == entry_of(d, q) by {
        if has_key(d, q) {
            let m = choose|m: int| 0 <= m < d.len() && (#[trigger] d[m]).0@ == q;
            lemma_entry_at(d, m);
            assert(n[m] == d[m]);
            lemma_entry_at(n, m);
        } else {
            if has_key(n, q) {
                let m = choose|m: int| 0 <= m < n.len() && (#[trigger] n[m]).0@ == q;
                assert(m < d.len());
                assert(d[m] == n[m]);
            }
        }
    }
}

/// The index of the entry of `path`, adding it as ignored where it is not
/// tracked.
fn index_or_ignored(docs: &mut Vec<(String, TextDocumentType)>, path: &String) -> (r: usize)
    requires
        unique_keys(old(docs)@),
    ensures
        r < final(docs)@.len(),
        final(docs)@[r as int].0@ == path@,
        unique_keys(final(docs)@),
        has_key(old(docs)@, path@) ==> final(docs)@ == old(docs)@,
        !has_key(old(docs)@, path@) ==> final(docs)@ == old(docs)@.push((final(docs)@[r as int].0, TextDocumentType::Ignored))
            && r == old(docs)@.len(),
{
    match find_doc(docs, path.as_str()) {
        Some(i) => i,
        None => {
            let ghost prev = docs@;
            let entry = (path.clone(), TextDocumentType::Ignored);
            proof {
                lemma_entry_push(prev, entry);
            }
            docs.push(entry);
            docs.len() - 1
        },
    }
}

/// Sets the compiler diagnostics of the document at `i`, if it is a source.
fn set_entry_diagnostics(docs: &mut Vec<(String, TextDocumentType)>, i: usize, ds: Vec<Diagnostic>)
    requires
        i < old(docs)@.len(),
    ensures
        final(docs)@.len() == old(docs)@.len(),
        forall|k: int| 0 <= k < old(docs)@.len() && k != i ==> final(docs)@[k] == old(docs)@[k],
        final(docs)@[i as int].0 == old(docs)@[i as int].0,
        match final(docs)@[i as int].1 {
            TextDocumentType::Source(d) => old(docs)@[i as int].1 matches TextDocumentType::Source(od)
                && d.source == od.source && d.syntax_tree == od.syntax_tree && d.absolute_path == od.absolute_path
                && d.included_files == od.included_files && d.compiler_diagnostics == ds,
            TextDocumentType::Ignored => old(docs)@[i as int].1 is Ignored,
        },
{
    let mut entry = (String::new(), TextDocumentType::Ignored);
    std::mem::swap(&mut entry, &mut docs[i]);
    match &mut entry.1 {
        TextDocumentType::Source(d) => {
            d.set_compiler_diagnostics(ds);
        },
        TextDocumentType::Ignored => {},
    }
    docs.set(i, entry);
}

impl BackendInner {
    pub closed spec fn documents(&self) -> Seq<(String, TextDocumentType)> {
        self.docs@
    }

    pub closed spec fn root(&self) -> Option<String> {
        self.root_path
    }

    pub closed spec fn project(&self) -> Option<MPLABProjectConfig> {
        self.mcp
    }

    #[verifier::type_invariant]
    spec fn inv(self) -> bool {
        unique_keys(self.docs@)
    }

    /// Takes the documents out, leaving none.
    fn take_docs(&mut self) -> (r: Vec<(String, TextDocumentType)>)
        ensures
            r@ == old(self).documents(),
            unique_keys(r@),
            final(self).documents().len() == 0,
            final(self).root() == old(self).root(),
            final(self).project() == old(self).project(),
    {
        proof {
            use_type_invariant(&*self);
        }
        let mut docs: Vec<(String, TextDocumentType)> = Vec::new();
        std::mem::swap(&mut docs, &mut self.docs);
        docs
    }

    /// An empty index.
    pub fn new() -> (r: Self)
        ensures
            r.documents().len() == 0,
            r.root() is None,
            r.project() is None,
    {
        BackendInner { root_path: None, mcp: None, docs: Vec::new() }
    }

    pub fn set_root_path(&mut self, root_path: String)
        ensures
            final(self).root() == Some(root_path),
            final(self).project() == old(self).project(),
            final(self).documents() == old(self).documents(),
    {
        proof {
            use_type_invariant(&*self);
        }
        self.root_path = Some(root_path);
    }

    pub fn get_root_path(&self) -> (r: Result<&String, LsError>)
        ensures
            match self.root() {
                Some(p) => r == Ok::<&String, LsError>(&p),
                None => r == Err::<&String, LsError>(LsError::NotFound),
            },
    {
        match &self.root_path {
            Some(p) => Ok(p),
            None => Err(LsError::NotFound),
        }
    }

    pub fn set_mcp(&mut self, mplab: MPLABProjectConfig)
        ensures
            final(self).project() == Some(mplab),
            final(self).root() == old(self).root(),
            final(self).documents() == old(self).documents(),
    {
        proof {
            use_type_invariant(&*self);
        }
        self.mcp = Some(mplab);
    }

    pub fn get_mcp(&self) -> (r: Result<&MPLABProjectConfig, LsError>)
        ensures
            match self.project() {
                Some(c) => r == Ok::<&MPLABProjectConfig, LsError>(&c),
                None => r == Err::<&MPLABProjectConfig, LsError>(LsError::NotFound),
            },
    {
        match &self.mcp {
            Some(c) => Ok(c),
            None => Err(LsError::NotFound),
        }
    }

    /// Forgets the project and every document.
    pub fn clear(&mut self)
        ensures
            final(self).documents().len() == 0,
            final(self).root() is None,
            final(self).project() is None,
    {
        self.docs = Vec::new();
        self.root_path = None;
        self.mcp = None;
    }

    /// Adds the documents in order, each replacing the document of the same
    /// path: of two documents of one path the later stands.
    pub fn insert_docs(&mut self, docs: Vec<(String, TextDocumentType)>)
        ensures
            unique_keys(final(self).documents()),
            forall|k: int| 0 <= k < docs@.len() ==> has_key(final(self).documents(), (#[trigger] docs@[k]).0@),
            forall|i: int| 0 <= i < old(self).documents().len() ==> has_key(final(self).documents(), (#[trigger] old(self).documents()[i]).0@),
            forall|k: int| 0 <= k < docs@.len() && (forall|m: int| k < m < docs@.len() ==> docs@[m].0@ != docs@[k].0@)
                ==> entry_of(final(self).documents(), (#[trigger] docs@[k]).0@) == Some(docs@[k].1),
            forall|i: int| 0 <= i < old(self).documents().len() && (forall|m: int| 0 <= m < docs@.len() ==> docs@[m].0@ != old(self).documents()[i].0@)
                ==> entry_of(final(self).documents(), (#[trigger] old(self).documents()[i]).0@) == Some(old(self).documents()[i].1),
            final(self).root() == old(self).root(),
            final(self).project() == old(self).project(),
    {
        let mut index = self.take_docs();
        let ghost before = index@;
        let ghost given = docs@;
        let n = docs.len();
        let mut pending = docs;
        let mut rev: Vec<(String, TextDocumentType)> = Vec::new();
        while pending.len() > 0
            invariant
                n == given.len(),
                pending@ == given.subrange(0, pending@.len() as int),
                rev@.len() == n - pending@.len(),
                forall|t: int| 0 <= t < rev@.len() ==> (#[trigger] rev@[t]) == given[n - 1 - t],
            decreases pending@.len(),
        {
            let e = pending.pop().unwrap();
            rev.push(e);
            assert(pending@ =~= given.subrange(0, pending@.len() as int));
        }
        let mut j: usize = 0;
        while rev.len() > 0
            invariant
                n == given.len(),
                rev@.len() == n - j,
                forall|t: int| 0 <= t < rev@.len() ==> (#[trigger] rev@[t]) == given[n - 1 - t],
                unique_keys(index@),
                forall|k: int| 0 <= k < j ==> has_key(index@, (#[trigger] given[k]).0@),
                forall|i: int| 0 <= i < before.len() ==> has_key(index@, (#[trigger] before[i]).0@),
                forall|k: int| 0 <= k < j && (forall|m: int| k < m < j ==> given[m].0@ != given[k].0@)
                    ==> entry_of(index@, (#[trigger] given[k]).0@) == Some(given[k].1),
                forall|i: int| 0 <= i < before.len() && (forall|m: int| 0 <= m < j ==> given[m].0@ != before[i].0@)
                    ==> entry_of(index@, (#[trigger] before[i]).0@) == Some(before[i].1),
            decreases rev@.len(),
        {
            let (p, d) = rev.pop().unwrap();
            assert(given[j as int] == (p, d));
            let ghost prev = index@;
            match find_doc(&index, p.as_str()) {
                Some(i) => {
                    proof {
                        lemma_entry_update(prev, i as int, (p, d));
                    }
                    index.set(i, (p, d));
                },
                None => {
                    proof {
                        lemma_entry_push(prev, (p, d));
                    }
                    index.push((p, d));
                },
            }
            proof {
                let q = given[j as int].0@;
                assert forall|r: Seq<char>| has_key(prev, r) implies has_key(index@, r) by {
                    let m = choose|m: int| 0 <= m < prev.len() && (#[trigger] prev[m]).0@ == r;
                    assert(entry_of(prev, r) is Some);
                    assert(entry_of(index@, r) is Some);
                }
                assert(entry_of(index@, q) is Some);
                assert forall|k: int| 0 <= k < j + 1 && (forall|m: int| k < m < j + 1 ==> given[m].0@ != given[k].0@)
                    implies entry_of(index@, (#[trigger] given[k]).0@) == Some(given[k].1) by {
                    if k < j {
                        assert(given[j as int].0@ != given[k].0@);
                    }
                }
                assert forall|i: int| 0 <= i < before.len() && (forall|m: int| 0 <= m < j + 1 ==> given[m].0@ != before[i].0@)
                    implies entry_of(index@, (#[trigger] before[i]).0@) == Some(before[i].1) by {
                    assert(given[j as int].0@ != before[i].0@);
                }
                assert forall|k: int| 0 <= k < j + 1 implies has_key(index@, (#[trigger] given[k]).0@) by {
                    if k < j {
                        assert(has_key(prev, given[k].0@));
                    }
                }
            }
            j = j + 1;
        }
        self.docs = index;
    }

    /// The entry of `path`.
    pub fn get_doc(&self, path: &str) -> (r: Result<&TextDocumentType, LsError>)
        ensures
            match r {
                Ok(t) => exists|i: int| 0 <= i < self.documents().len() && self.documents()[i].0@ == path@
                    && t == &self.documents()[i].1,
                Err(e) => e == LsError::NotFound && !has_key(self.documents(), path@),
            },
    {
        match find_doc(&self.docs, path) {
            Some(i) => {
                assert(0 <= i < self.documents().len() && self.documents()[i as int].0@ == path@
                    && &self.docs[i as int].1 == &self.documents()[i as int].1);
                Ok(&self.docs[i].1)
            },
            None => Err(LsError::NotFound),
        }
    }

    /// Replaces the compiler diagnostics of every document by those of the
    /// batch: all are cleared first, then each path of the batch gets its list,
    /// an untracked path being added as ignored. Returns the batch.
    pub fn insert_compiler_diagnostics(&mut self, batch: Vec<(String, Vec<Diagnostic>)>) -> (r: Vec<(String, Vec<Diagnostic>)>)
        requires
            unique_batch(batch@),
        ensures
            ingested(old(self).documents(), final(self).documents(), batch@),
            r == batch,
            final(self).root() == old(self).root(),
            final(self).project() == old(self).project(),
    {
        let mut docs = self.take_docs();
        let ghost start = docs@;
        let n = docs.len();
        let mut i: usize = 0;
        while i < n
            invariant
                n == start.len(),
                i <= n,
                docs@.len() == n,
                unique_keys(start),
                forall|k: int| 0 <= k < n ==> (#[trigger] docs@[k]).0 == start[k].0,
                forall|k: int| 0 <= k < n ==> match (#[trigger] docs@[k]).1 {
                    TextDocumentType::Source(d) => start[k].1 matches TextDocumentType::Source(od)
                        && d.source == od.source && d.syntax_tree == od.syntax_tree && d.absolute_path == od.absolute_path
                        && d.included_files == od.included_files
                        && (k < i ==> d.compiler_diagnostics@.len() == 0)
                        && (k >= i ==> d.compiler_diagnostics == od.compiler_diagnostics),
                    TextDocumentType::Ignored => start[k].1 is Ignored,
                },
            decreases n - i,
        {
            set_entry_diagnostics(&mut docs, i, Vec::new());
            i = i + 1;
        }
        let mut j: usize = 0;
        while j < batch.len()
            invariant
                n == start.len(),
                j <= batch@.len(),
                docs@.len() >= n,
                unique_keys(start),
                unique_keys(docs@),
                unique_batch(batch@),
                forall|k: int| 0 <= k < n ==> (#[trigger] docs@[k]).0 == start[k].0,
                forall|k: int| 0 <= k < n ==> match (#[trigger] docs@[k]).1 {
                    TextDocumentType::Source(d) => start[k].1 matches TextDocumentType::Source(od)
                        && d.source == od.source && d.syntax_tree == od.syntax_tree && d.absolute_path == od.absolute_path
                        && d.included_files == od.included_files
                        && views(d.compiler_diagnostics@) == match batch_lookup(batch@.subrange(0, j as int), start[k].0@) {
                            Some(ds) => ds,
                            None => Seq::empty(),
                        },
                    TextDocumentType::Ignored => start[k].1 is Ignored,
                },
                forall|m: int| n <= m < docs@.len() ==> (#[trigger] docs@[m]).1 is Ignored
                    && batch_lookup(batch@.subrange(0, j as int), docs@[m].0@) is Some && !has_key(start, docs@[m].0@),
                forall|k: int| 0 <= k < j ==> has_key(docs@, (#[trigger] batch@[k]).0@),
            decreases batch@.len() - j,
        {
            let ghost prev = docs@;
            let path = &batch[j].0;
            proof {
                let sub = batch@.subrange(0, j + 1);
                assert(sub.drop_last() =~= batch@.subrange(0, j as int));
                assert(sub.last() == batch@[j as int]);
            }
            let idx = index_or_ignored(&mut docs, path);
            let copies = duplicate_all(&batch[j].1);
            let ghost mid = docs@;
            set_entry_diagnostics(&mut docs, idx, copies);
            proof {
                assert forall|k: int| 0 <= k < j + 1 implies has_key(docs@, (#[trigger] batch@[k]).0@) by {
                    if k < j {
                        let m = choose|m: int| 0 <= m < prev.len() && (#[trigger] prev[m]).0@ == batch@[k].0@;
                        assert(docs@[m].0@ == batch@[k].0@);
                    } else {
                        assert(docs@[idx as int].0@ == batch@[k].0@);
                    }
                }
                assert forall|m: int| n <= m < docs@.len() implies (#[trigger] docs@[m]).1 is Ignored
                    && batch_lookup(batch@.subrange(0, j + 1), docs@[m].0@) is Some && !has_key(start, docs@[m].0@) by {
                    let sub = batch@.subrange(0, j + 1);
                    if m < prev.len() {
                        assert(docs@[m] == prev[m]);
                        if prev[m].0@ == path@ {
                            lemma_lookup_in_batch(batch@.subrange(0, j as int), path@);
                            let q = choose|q: int| 0 <= q < j && batch@.subrange(0, j as int)[q].0@ == path@;
                            assert(batch@[q].0@ == batch@[j as int].0@);
                        }
                        assert(prev[m].0@ != path@);
                        assert(batch_lookup(sub, prev[m].0@) == batch_lookup(batch@.subrange(0, j as int), prev[m].0@));
                    } else {
                        assert(docs@[m].0@ == path@);
                        assert(!has_key(prev, path@));
                        assert(!has_key(start, path@)) by {
                            if has_key(start, path@) {
                                let q = choose|q: int| 0 <= q < start.len() && (#[trigger] start[q]).0@ == path@;
                                assert(prev[q].0 == start[q].0);
                            }
                        }
                    }
                }
                assert forall|i1: int, i2: int| 0 <= i1 < i2 < docs@.len() implies (#[trigger] docs@[i1]).0@ != (#[trigger] docs@[i2]).0@ by {
                    assert(docs@[i1].0 == mid[i1].0);
                    assert(docs@[i2].0 == mid[i2].0);
                }
            }
            j = j + 1;
        }
        assert(batch@.subrange(0, j as int) =~= batch@);
        self.docs = docs;
        batch
    }

    /// The response to opening the document at `path` (published under
    /// `uri`): the "Document is ignored" warning for an ignored or untracked
    /// path, which is then tracked as ignored, and the document's diagnostics
    /// for a source.
    pub fn did_open(&mut self, path: String, uri: String) -> (r: Result<CCSCResponse, LsError>)
        ensures
            unique_keys(final(self).documents()),
            has_key(final(self).documents(), path@),
            has_key(old(self).documents(), path@) ==> final(self).documents() == old(self).documents(),
            !has_key(old(self).documents(), path@) ==> final(self).documents().len() == old(self).documents().len() + 1
                && final(self).documents().drop_last() == old(self).documents()
                && final(self).documents().last().1 is Ignored && final(self).documents().last().0@ == path@,
            final(self).root() == old(self).root(),
            final(self).project() == old(self).project(),
            is_ignored_path(old(self).documents(), path@) ==> (r matches Ok(resp) && is_ignore_response(resp, uri)),
            entry_of(old(self).documents(), path@) matches Some(TextDocumentType::Source(d)) ==> (
                (d.syntax_tree is None ==> r == Err::<CCSCResponse, LsError>(LsError::NoSyntaxTree))
                && (d.syntax_tree is Some ==> (r matches Ok(resp) && resp.logs is None
                    && (resp.uri_diagnostics matches Some((u, ds)) && u == uri && exists|root: SyntaxNode|
                        views(ds@) == #[trigger] tree_diagnostics(root, d.source.text()) + views(d.compiler_diagnostics@))))),
    {
        let mut docs = self.take_docs();
        let ghost before = docs@;
        let idx = index_or_ignored(&mut docs, &path);
        proof {
            lemma_entry_at(docs@, idx as int);
            if !has_key(before, path@) {
                assert(docs@.drop_last() =~= before);
            }
        }
        let result = match &docs[idx].1 {
            TextDocumentType::Ignored => Ok(CCSCResponse::ignore_file(uri)),
            TextDocumentType::Source(doc) => match doc.get_diagnostics() {
                Ok(diagnostics) => Ok(CCSCResponse::from_diagnostics(uri, diagnostics)),
                Err(e) => Err(e),
            },
        };
        self.docs = docs;
        result
    }
}

impl BackendInner {
    /// Applies the changes to the document at `path` (published under `uri`)
    /// and answers with the log of the texts it passed through and the
    /// document's diagnostics; an ignored or untracked path, which is
    /// then tracked as ignored, gets the "Document is ignored" warning. Every
    /// other entry stays as it was.
    pub fn did_change(&mut self, path: String, uri: String, changes: Vec<ContentChange>, parser: &mut tree_sitter::Parser) -> (r: Result<CCSCResponse, LsError>)
        ensures
            unique_keys(final(self).documents()),
            has_key(final(self).documents(), path@),
            final(self).root() == old(self).root(),
            final(self).project() == old(self).project(),
            forall|i: int| 0 <= i < old(self).documents().len() && (#[trigger] old(self).documents()[i]).0@ != path@
                ==> final(self).documents()[i] == old(self).documents()[i],
            forall|i: int| 0 <= i < old(self).documents().len() ==> (#[trigger] final(self).documents()[i]).0 == old(self).documents()[i].0,
            has_key(old(self).documents(), path@) ==> final(self).documents().len() == old(self).documents().len(),
            !has_key(old(self).documents(), path@) ==> final(self).documents().len() == old(self).documents().len() + 1
                && final(self).documents().drop_last() == old(self).documents()
                && final(self).documents().last().1 is Ignored && final(self).documents().last().0@ == path@,
            is_ignored_path(old(self).documents(), path@) ==> (r matches Ok(resp) && is_ignore_response(resp, uri)),
            is_ignored_path(old(self).documents(), path@) && has_key(old(self).documents(), path@)
                ==> final(self).documents() == old(self).documents(),
            entry_of(old(self).documents(), path@) matches Some(TextDocumentType::Source(d)) ==> exists|d2: TextDocument, o: Result<(), LsError>|
                entry_of(final(self).documents(), path@) == Some(TextDocumentType::Source(d2))
                && #[trigger] reparsed(d, d2, change_views(changes@), o)
                && (o matches Err(e) ==> r == Err::<CCSCResponse, LsError>(e))
                && (o is Ok && d2.syntax_tree is None ==> r == Err::<CCSCResponse, LsError>(LsError::NoSyntaxTree))
                && (o is Ok && d2.syntax_tree is Some ==> (r matches Ok(resp) && (resp.logs matches Some(ls) && ls@.len() == 1)
                    && (resp.uri_diagnostics matches Some((u, ds)) && u == uri && exists|root: SyntaxNode|
                        views(ds@) == #[trigger] tree_diagnostics(root, d2.source.text()) + views(d2.compiler_diagnostics@)))),
    {
        let mut docs = self.take_docs();
        let ghost before = docs@;
        let idx = index_or_ignored(&mut docs, &path);
        proof {
            lemma_entry_at(docs@, idx as int);
            if !has_key(before, path@) {
                assert(docs@.drop_last() =~= before);
            }
        }
        let ghost mid = docs@;
        let mut entry = (String::new(), TextDocumentType::Ignored);
        std::mem::swap(&mut entry, &mut docs[idx]);
        assert(entry == mid[idx as int]);
        let ghost mut o: Result<(), LsError> = Ok(());
        let result = match &mut entry.1 {
            TextDocumentType::Ignored => Ok(CCSCResponse::ignore_file(uri)),
            TextDocumentType::Source(doc) => {
                let applied = doc.reparse_with_lsp(changes, parser);
                proof {
                    o = outcome(applied);
                }
                match applied {
                    Ok(log) => match doc.get_diagnostics() {
                        Ok(diagnostics) => {
                            let mut logs: Vec<String> = Vec::new();
                            logs.push(log);
                            Ok(CCSCResponse::new(Some(logs), Some((uri, diagnostics))))
                        },
                        Err(e) => Err(e),
                    },
                    Err(e) => Err(e),
                }
            },
        };
        let ghost fin = entry;
        docs.set(idx, entry);
        proof {
            assert(docs@ == mid.update(idx as int, fin));
            lemma_entry_update(mid, idx as int, fin);
            if let TextDocumentType::Source(d2) = fin.1 {
                assert(entry_of(docs@, path@) == Some(TextDocumentType::Source(d2)));
            }
            if mid[idx as int].1 is Ignored {
                assert(docs@ =~= mid);
            }
        }
        self.docs = docs;
        result
    }

}

/// The diagnostics of the entries about path `p`, in order.
pub open spec fn diagnostics_for(es: Seq<(Seq<char>, DiagnosticView)>, p: Seq<char>) -> Seq<DiagnosticView>
    decreases es.len(),
{
    if es.len() == 0 {
        Seq::empty()
    } else if es.last().0 == p {
        diagnostics_for(es.drop_last(), p).push(es.last().1)
    } else {
        diagnostics_for(es.drop_last(), p)
    }
}

pub open spec fn names_path(es: Seq<(Seq<char>, DiagnosticView)>, p: Seq<char>) -> bool {
    exists|i: int| 0 <= i < es.len() && (#[trigger] es[i]).0 == p
}

proof fn lemma_lookup_at(b: Seq<(String, Vec<Diagnostic>)>, f: int)
    requires
        unique_batch(b),
        0 <= f < b.len(),
    ensures
        batch_lookup(b, b[f].0@) == Some(views(b[f].1@)),
    decreases b.len(),
{
    if f < b.len() - 1 {
        assert(b.last() == b[b.len() - 1]);
        assert(b.drop_last()[f] == b[f]);
        lemma_lookup_at(b.drop_last(), f);
    }
}

proof fn lemma_lookup_none(b: Seq<(String, Vec<Diagnostic>)>, p: Seq<char>)
    requires
        forall|m: int| 0 <= m < b.len() ==> (#[trigger] b[m]).0@ != p,
    ensures
        batch_lookup(b, p) is None,
    decreases b.len(),
{
    if b.len() > 0 {
        assert(b.last() == b[b.len() - 1]);
        assert forall|m: int| 0 <= m < b.drop_last().len() implies (#[trigger] b.drop_last()[m]).0@ != p by {
            assert(b.drop_last()[m] == b[m]);
        }
        lemma_lookup_none(b.drop_last(), p);
    }
}

proof fn lemma_lookup_update(b: Seq<(String, Vec<Diagnostic>)>, c: Seq<(String, Vec<Diagnostic>)>, f: int, p: Seq<char>)
    requires
        unique_batch(b),
        unique_batch(c),
        0 <= f < b.len(),
        c.len() == b.len(),
        forall|m: int| 0 <= m < b.len() && m != f ==> c[m] == b[m],
        c[f].0@ == b[f].0@,
        p != b[f].0@,
    ensures
        batch_lookup(c, p) == batch_lookup(b, p),
{
    if exists|m: int| 0 <= m < b.len() && (#[trigger] b[m]).0@ == p {
        let m = choose|m: int| 0 <= m < b.len() && (#[trigger] b[m]).0@ == p;
        lemma_lookup_at(b, m);
        lemma_lookup_at(c, m);
    } else {
        lemma_lookup_none(b, p);
        assert forall|m: int| 0 <= m < c.len() implies (#[trigger] c[m]).0@ != p by {
            if m != f {
                assert(c[m] == b[m]);
            }
        }
        lemma_lookup_none(c, p);
    }
}

proof fn lemma_names_step(pre: Seq<(Seq<char>, DiagnosticView)>, sub: Seq<(Seq<char>, DiagnosticView)>, p: Seq<char>)
    requires
        sub.len() == pre.len() + 1,
        sub.drop_last() == pre,
    ensures
        names_path(sub, p) == (names_path(pre, p) || sub.last().0 == p),
        diagnostics_for(sub, p) == if sub.last().0 == p {
            diagnostics_for(pre, p).push(sub.last().1)
        } else {
            diagnostics_for(pre, p)
        },
{
    if names_path(sub, p) && sub.last().0 != p {
        let i = choose|i: int| 0 <= i < sub.len() && (#[trigger] sub[i]).0 == p;
        assert(i < pre.len());
        assert(pre[i] == sub[i]);
    }
    if names_path(pre, p) {
        let i = choose|i: int| 0 <= i < pre.len() && (#[trigger] pre[i]).0 == p;
        assert(sub[i] == pre[i]);
    }
    if sub.last().0 == p {
        assert(sub[sub.len() - 1].0 == p);
    }
}

proof fn lemma_lookup_none_names(es: Seq<(Seq<char>, DiagnosticView)>, p: Seq<char>)
    ensures
        !names_path(es, p) ==> diagnostics_for(es, p) == Seq::<DiagnosticView>::empty(),
    decreases es.len(),
{
    if es.len() > 0 && !names_path(es, p) {
        assert(es.last() == es[es.len() - 1]);
        if names_path(es.drop_last(), p) {
            let i = choose|i: int| 0 <= i < es.drop_last().len() && (#[trigger] es.drop_last()[i]).0 == p;
            assert(es[i] == es.drop_last()[i]);
        }
        lemma_lookup_none_names(es.drop_last(), p);
    }
}

/// Gathers the entries by path: each path once, with its diagnostics in the
/// order of the entries.
pub fn group_by_path(entries: Vec<(String, Diagnostic)>) -> (r: Vec<(String, Vec<Diagnostic>)>)
    ensures
        unique_batch(r@),
        forall|p: Seq<char>| #[trigger] batch_lookup(r@, p) == if names_path(entry_views(entries@), p) {
            Some(diagnostics_for(entry_views(entries@), p))
        } else {
            None
        },
{
    let ghost ev = entry_views(entries@);
    let mut out: Vec<(String, Vec<Diagnostic>)> = Vec::new();
    let mut i: usize = 0;
    while i < entries.len()
        invariant
            i <= entries@.len(),
            ev == entry_views(entries@),
            unique_batch(out@),
            forall|p: Seq<char>| #[trigger] batch_lookup(out@, p) == if names_path(ev.subrange(0, i as int), p) {
                Some(diagnostics_for(ev.subrange(0, i as int), p))
            } else {
                None
            },
        decreases entries@.len() - i,
    {
        let path = &entries[i].0;
        let d = entries[i].1.duplicate();
        let ghost prev = out@;
        let ghost sub = ev.subrange(0, i + 1);
        proof {
            assert(sub.drop_last() =~= ev.subrange(0, i as int));
            assert(sub.last() == ev[i as int]);
            assert(ev[i as int] == (path@, entries@[i as int].1@));
        }
        let mut found: Option<usize> = None;
        let mut k: usize = 0;
        while k < out.len()
            invariant
                k <= out@.len(),
                out@ == prev,
                found is None ==> forall|m: int| 0 <= m < k ==> (#[trigger] out@[m]).0@ != path@,
                found matches Some(f) ==> f < out@.len() && out@[f as int].0@ == path@,
            decreases out@.len() - k,
        {
            if found.is_none() && str_eq(out[k].0.as_str(), path.as_str()) {
                found = Some(k);
            }
            k = k + 1;
        }
        let ghost dv = d;
        proof {
            assert(sub.drop_last() =~= ev.subrange(0, i as int));
            assert(sub.last() == (path@, dv@));
        }
        match found {
            Some(f) => {
                let mut entry = (String::new(), Vec::new());
                std::mem::swap(&mut entry, &mut out[f]);
                let ghost olds = entry.1@;
                entry.1.push(d);
                out.set(f, entry);
                proof {
                    lemma_views_push(olds, dv);
                    assert(olds == prev[f as int].1@);
                    assert forall|a: int, b: int| 0 <= a < b < out@.len() implies (#[trigger] out@[a]).0@ != (#[trigger] out@[b]).0@ by {
                        assert(out@[a].0@ == prev[a].0@);
                        assert(out@[b].0@ == prev[b].0@);
                    }
                    assert forall|p: Seq<char>| #[trigger] batch_lookup(out@, p) == if names_path(sub, p) {
                        Some(diagnostics_for(sub, p))
                    } else {
                        None
                    } by {
                        lemma_lookup_at(prev, f as int);
                        lemma_lookup_at(out@, f as int);
                        lemma_names_step(ev.subrange(0, i as int), sub, p);
                        if p != path@ {
                            lemma_lookup_update(prev, out@, f as int, p);
                        } else {
                            lemma_lookup_none_names(ev.subrange(0, i as int), p);
                        }
                    }
                }
            },
            None => {
                let mut v: Vec<Diagnostic> = Vec::new();
                v.push(d);
                out.push((path.clone(), v));
                proof {
                    assert(views(v@) =~= seq![dv@]);
                    assert forall|p: Seq<char>| #[trigger] batch_lookup(out@, p) == if names_path(sub, p) {
                        Some(diagnostics_for(sub, p))
                    } else {
                        None
                    } by {
                        assert(out@.drop_last() =~= prev);
                        assert(out@.last().0@ == path@);
                        lemma_names_step(ev.subrange(0, i as int), sub, p);
                        if p != path@ {
                            assert(batch_lookup(out@, p) == batch_lookup(prev, p));
                        }
                        if p == path@ {
                            assert(out@.last().1 == v);
                            assert(batch_lookup(out@, p) == Some(views(v@)));
                            lemma_lookup_none(prev, p);
                            lemma_lookup_none_names(ev.subrange(0, i as int), p);
                            assert(diagnostics_for(ev.subrange(0, i as int), p) =~= Seq::<DiagnosticView>::empty());
                            assert(seq![dv@] =~= Seq::<DiagnosticView>::empty().push(dv@));
                        }
                    }
                }
            },
        }
        i = i + 1;
    }
    assert(ev.subrange(0, i as int) =~= ev);
    out
}

/// Where each project file is and whether it is left unanalysed: the path
/// resolved against the project root, ignored where generated or other.
pub fn index_plan(mcp: &MPLABProjectConfig, root_path: &str) -> (r: Vec<(String, bool)>)
    ensures
        r@.len() == mcp.files@.len(),
        forall|i: int| 0 <= i < r@.len() ==> (#[trigger] r@[i]).0@ == path_joined(root_path@, mcp.files@[i].1.path@)
            && r@[i].1 == (mcp.files@[i].1.is_generated || mcp.files@[i].1.is_other),
{
    let mut out: Vec<(String, bool)> = Vec::new();
    let mut i: usize = 0;
    while i < mcp.files.len()
        invariant
            i <= mcp.files@.len(),
            out@.len() == i,
            forall|k: int| 0 <= k < i ==> (#[trigger] out@[k]).0@ == path_joined(root_path@, mcp.files@[k].1.path@)
                && out@[k].1 == (mcp.files@[k].1.is_generated || mcp.files@[k].1.is_other),
        decreases mcp.files@.len() - i,
    {
        let f = &mcp.files[i].1;
        out.push((join_path(root_path, f.path.as_str()), f.is_generated || f.is_other));
        i = i + 1;
    }
    out
}

/// Whether a read project file becomes a parsed document: it is not ignored and
/// it is a C, C++ or header source.
pub open spec fn becomes_source(path: Seq<char>, ignored: bool) -> bool {
    !ignored && is_source_extension_spec(extension_of(path))
}

/// `t` is the entry of a project file at `path` with text `raw`: a source
/// document of that path and text, with no compiler diagnostics, where the
/// file becomes a source, and ignored otherwise.
pub open spec fn built_from(t: TextDocumentType, path: String, raw: Seq<char>, ignored: bool) -> bool {
    &&& (t is Source <==> becomes_source(path@, ignored))
    &&& t matches TextDocumentType::Source(d) ==> d.absolute_path == path && d.source.text() == raw && d.wf()
        && d.compiler_diagnostics@.len() == 0
}

impl TextDocumentType {
    /// The entry of a project file at `path` with text `raw`.
    pub fn create(path: String, raw: String, to_be_ignored: bool, parser: &mut tree_sitter::Parser) -> (r: TextDocumentType)
        ensures
            built_from(r, path, raw@, to_be_ignored),
    {
        if !to_be_ignored && is_source_file(path.as_str()) {
            TextDocumentType::Source(TextDocument::new(path, raw, parser))
        } else {
            TextDocumentType::Ignored
        }
    }

    /// The entries of the project files that could be read, given as
    /// `(path, text, ignored)`.
    pub fn index_from_mcp(files: Vec<(String, String, bool)>, parser: &mut tree_sitter::Parser) -> (r: Vec<(String, TextDocumentType)>)
        ensures
            r@.len() == files@.len(),
            forall|i: int| 0 <= i < r@.len() ==> (#[trigger] r@[i]).0 == files@[i].0
                && built_from(r@[i].1, files@[i].0, files@[i].1@, files@[i].2),
    {
        let mut files = files;
        let ghost given = files@;
        let mut out: Vec<(String, TextDocumentType)> = Vec::new();
        let n = files.len();
        let mut k: usize = n;
        while k > 0
            invariant
                k <= n == given.len(),
                files@ == given.subrange(0, k as int),
                out@.len() == n - k,
                forall|i: int| 0 <= i < n - k ==> (#[trigger] out@[i]).0 == given[n - 1 - i].0
                    && built_from(out@[i].1, given[n - 1 - i].0, given[n - 1 - i].1@, given[n - 1 - i].2),
            decreases k,
        {
            let (p, raw, ignored) = files.pop().unwrap();
            k = k - 1;
            assert(given[k as int] == (p, raw, ignored));
            let t = TextDocumentType::create(p.clone(), raw, ignored, parser);
            out.push((p, t));
            assert(files@ =~= given.subrange(0, k as int));
        }
        let mut res: Vec<(String, TextDocumentType)> = Vec::new();
        let ghost rev = out@;
        while out.len() > 0
            invariant
                rev.len() == n,
                out@ == rev.subrange(0, out@.len() as int),
                res@.len() == n - out@.len(),
                forall|i: int| 0 <= i < n ==> (#[trigger] rev[i]).0 == given[n - 1 - i].0
                    && built_from(rev[i].1, given[n - 1 - i].0, given[n - 1 - i].1@, given[n - 1 - i].2),
                forall|i: int| 0 <= i < res@.len() ==> (#[trigger] res@[i]) == rev[n - 1 - i],
            decreases out@.len(),
        {
            let e = out.pop().unwrap();
            res.push(e);
            assert(out@ =~= rev.subrange(0, out@.len() as int));
        }
        res
    }
}

} // verus!
