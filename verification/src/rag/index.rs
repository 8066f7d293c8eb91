//! What the assistant knows of a stored index without its embeddings: the
//! model that made it and the files it was made from.

use vstd::prelude::*;
use crate::text::{chars_of, str_eq};

verus! {

/// Layout version of the stored index; an index of another version is
/// not used.
pub const INDEX_FORMAT_VERSION: u32 = 1;

/// Whether a stored index of layout `version` can be used.
pub fn is_current_format(version: u32) -> (b: bool)
    ensures
        b == (version == INDEX_FORMAT_VERSION),
{
    version == INDEX_FORMAT_VERSION
}

/// The views of file entries: absolute path and modification time (unix
/// seconds).
pub open spec fn files_view(v: Seq<(String, u64)>) -> Seq<(Seq<char>, u64)> {
    v.map_values(|e: (String, u64)| (e.0@, e.1))
}

/// `a` comes before `b` in code-point order, the order in which `String`
/// compares (the byte order of UTF-8 is the code-point order).
pub open spec fn text_lt(a: Seq<char>, b: Seq<char>) -> bool
    decreases a.len(),
{
    if a.len() == 0 {
        b.len() > 0
    } else if b.len() == 0 {
        false
    } else if a[0] != b[0] {
        (a[0] as int) < (b[0] as int)
    } else {
        text_lt(a.drop_first(), b.drop_first())
    }
}

/// Paths strictly ascending: sorted, and none twice.
pub open spec fn strictly_ascending(s: Seq<(Seq<char>, u64)>) -> bool {
    forall|i: int, j: int| 0 <= i < j < s.len() ==> text_lt(#[trigger] s[i].0, #[trigger] s[j].0)
}

/// Whether `path` is listed in the table.
pub open spec fn has_path(s: Seq<(Seq<char>, u64)>, path: Seq<char>) -> bool {
    exists|i: int| 0 <= i < s.len() && (#[trigger] s[i]).0 == path
}

/// Where `path` belongs in an ascending table: after every smaller path.
pub open spec fn insert_point(s: Seq<(Seq<char>, u64)>, path: Seq<char>) -> nat
    decreases s.len(),
{
    if s.len() > 0 && text_lt(s[0].0, path) {
        1 + insert_point(s.drop_first(), path)
    } else {
        0
    }
}

/// The table with `path` set to `mtime`: its entry updated where it is
/// listed, else a new entry at its place in the order.
pub open spec fn table_insert(s: Seq<(Seq<char>, u64)>, path: Seq<char>, mtime: u64) -> Seq<(Seq<char>, u64)> {
    let i = insert_point(s, path) as int;
    if i < s.len() && s[i].0 == path {
        s.update(i, (path, mtime))
    } else {
        s.insert(i, (path, mtime))
    }
}

proof fn lemma_insert_point(s: Seq<(Seq<char>, u64)>, path: Seq<char>)
    ensures
        insert_point(s, path) <= s.len(),
        forall|j: int| 0 <= j < insert_point(s, path) ==> text_lt(#[trigger] s[j].0, path),
        insert_point(s, path) < s.len() ==> !text_lt(s[insert_point(s, path) as int].0, path),
    decreases s.len(),
{
    if s.len() > 0 && text_lt(s[0].0, path) {
        let t = s.drop_first();
        lemma_insert_point(t, path);
        assert forall|j: int| 0 <= j < insert_point(s, path) implies text_lt(#[trigger] s[j].0, path) by {
            if j > 0 {
                assert(s[j] == t[j - 1]);
            }
        }
        if insert_point(s, path) < s.len() {
            assert(s[insert_point(s, path) as int] == t[insert_point(t, path) as int]);
        }
    }
}

proof fn lemma_lt_irreflexive(a: Seq<char>)
    ensures
        !text_lt(a, a),
    decreases a.len(),
{
    if a.len() > 0 {
        lemma_lt_irreflexive(a.drop_first());
    }
}

proof fn lemma_lt_total(a: Seq<char>, b: Seq<char>)
    requires
        a != b,
    ensures
        text_lt(a, b) || text_lt(b, a),
    decreases a.len(),
{
    if a.len() > 0 && b.len() > 0 && a[0] == b[0] {
        if a.drop_first() == b.drop_first() {
            assert(a =~= seq![a[0]] + a.drop_first());
            assert(b =~= seq![b[0]] + b.drop_first());
        }
        lemma_lt_total(a.drop_first(), b.drop_first());
    } else if a.len() == 0 && b.len() == 0 {
        assert(a =~= b);
    } else if a.len() > 0 && b.len() > 0 {
        assert((a[0] as int) != (b[0] as int));
    }
}

proof fn lemma_lt_transitive(a: Seq<char>, b: Seq<char>, c: Seq<char>)
    requires
        text_lt(a, b),
        text_lt(b, c),
    ensures
        text_lt(a, c),
    decreases a.len(),
{
    if a.len() > 0 && b.len() > 0 && c.len() > 0 && a[0] == b[0] && b[0] == c[0] {
        lemma_lt_transitive(a.drop_first(), b.drop_first(), c.drop_first());
    }
}

proof fn lemma_lt_asymmetric(a: Seq<char>, b: Seq<char>)
    requires
        text_lt(a, b),
    ensures
        !text_lt(b, a),
{
    if text_lt(b, a) {
        lemma_lt_transitive(a, b, a);
        lemma_lt_irreflexive(a);
    }
}

/// Whether `a` comes before `b` in code-point order.
pub fn text_less(a: &Vec<char>, b: &Vec<char>) -> (r: bool)
    ensures
        r == text_lt(a@, b@),
{
    let mut i: usize = 0;
    assert(a@.subrange(0, a@.len() as int) =~= a@);
    assert(b@.subrange(0, b@.len() as int) =~= b@);
    while i < a.len() && i < b.len() && a[i] == b[i]
        invariant
            i <= a@.len(),
            i <= b@.len(),
            text_lt(a@, b@) == text_lt(
                a@.subrange(i as int, a@.len() as int),
                b@.subrange(i as int, b@.len() as int),
            ),
        decreases a@.len() - i,
    {
        assert(a@.subrange(i as int, a@.len() as int).drop_first() =~= a@.subrange(
            i + 1,
            a@.len() as int,
        ));
        assert(b@.subrange(i as int, b@.len() as int).drop_first() =~= b@.subrange(
            i + 1,
            b@.len() as int,
        ));
        i = i + 1;
    }
    if i == a.len() {
        i < b.len()
    } else if i == b.len() {
        false
    } else {
        a[i] < b[i]
    }
}

/// Files by absolute path with their modification times, kept in
/// ascending path order with no path twice, as a `BTreeMap<String, u64>`
/// keeps them.
#[derive(Debug)]
pub struct FileTable {
    entries: Vec<(String, u64)>,
}

impl View for FileTable {
    type V = Seq<(Seq<char>, u64)>;

    closed spec fn view(&self) -> Seq<(Seq<char>, u64)> {
        files_view(self.entries@)
    }
}

impl FileTable {
    #[verifier::type_invariant]
    spec fn ascending(&self) -> bool {
        strictly_ascending(files_view(self.entries@))
    }

    /// An empty table.
    pub fn new() -> (t: Self)
        ensures
            t@ == Seq::<(Seq<char>, u64)>::empty(),
    {
        let t = FileTable { entries: Vec::new() };
        assert(t@ =~= Seq::<(Seq<char>, u64)>::empty());
        t
    }

    /// The entries, in ascending path order.
    pub fn entries(&self) -> (e: &Vec<(String, u64)>)
        ensures
            files_view(e@) == self@,
            strictly_ascending(self@),
    {
        proof {
            use_type_invariant(self);
        }
        &self.entries
    }

    /// Number of files.
    pub fn len(&self) -> (n: usize)
        ensures
            n == self@.len(),
    {
        self.entries.len()
    }

    /// Sets the modification time of `path`, adding the path at its place
    /// in the order where it is not listed (`BTreeMap::insert`).
    pub fn insert(&mut self, path: String, mtime: u64)
        ensures
            final(self)@ == table_insert(old(self)@, path@, mtime),
            strictly_ascending(final(self)@),
    {
        proof {
            use_type_invariant(&*self);
        }
        let ghost s = self@;
        let key = chars_of(path.as_str());
        let n = self.entries.len();
        let mut i: usize = 0;
        assert(s.subrange(0, s.len() as int) =~= s);
        while i < n && text_less(&chars_of(self.entries[i].0.as_str()), &key)
            invariant
                n == self.entries@.len(),
                s == files_view(self.entries@),
                key@ == path@,
                i <= n,
                insert_point(s, key@) == i + insert_point(s.subrange(i as int, n as int), key@),
                forall|j: int| 0 <= j < i ==> text_lt(#[trigger] s[j].0, key@),
            decreases n - i,
        {
            assert(s.subrange(i as int, n as int).drop_first() =~= s.subrange(i + 1, n as int));
            assert(s.subrange(i as int, n as int)[0] == s[i as int]);
            i = i + 1;
        }
        if i < n {
            assert(s.subrange(i as int, n as int)[0] == s[i as int]);
        }
        assert(insert_point(s, key@) == i);
        let same = i < n && str_eq(self.entries[i].0.as_str(), path.as_str());
        let ghost t = table_insert(s, path@, mtime);
        proof {
            if !same {
                assert forall|a: int, b: int| 0 <= a < b < t.len() implies text_lt(
                    #[trigger] t[a].0,
                    #[trigger] t[b].0,
                ) by {
                    if i < n {
                        assert(!text_lt(s[i as int].0, path@));
                        lemma_lt_total(s[i as int].0, path@);
                    }
                    if b < i {
                        assert(t[a] == s[a] && t[b] == s[b]);
                    } else if b == i {
                        assert(t[a] == s[a]);
                    } else if a < i {
                        assert(t[a] == s[a] && t[b] == s[b - 1]);
                        if b - 1 > i {
                            lemma_lt_transitive(s[a].0, path@, s[i as int].0);
                            lemma_lt_transitive(s[a].0, s[i as int].0, s[b - 1].0);
                        } else {
                            lemma_lt_transitive(s[a].0, path@, s[i as int].0);
                        }
                    } else if a == i {
                        assert(t[b] == s[b - 1]);
                        if b - 1 > i {
                            lemma_lt_transitive(path@, s[i as int].0, s[b - 1].0);
                        }
                    } else {
                        assert(t[a] == s[a - 1] && t[b] == s[b - 1]);
                    }
                }
            } else {
                assert forall|a: int, b: int| 0 <= a < b < t.len() implies text_lt(
                    #[trigger] t[a].0,
                    #[trigger] t[b].0,
                ) by {
                    assert(t[a].0 == s[a].0 && t[b].0 == s[b].0);
                }
            }
        }
        let mut entries: Vec<(String, u64)> = Vec::new();
        std::mem::swap(&mut entries, &mut self.entries);
        if same {
            entries.set(i, (path, mtime));
        } else {
            entries.insert(i, (path, mtime));
        }
        assert(files_view(entries@) =~= t);
        self.entries = entries;
    }
}

impl Clone for FileTable {
    fn clone(&self) -> (t: Self)
        ensures
            t@ == self@,
    {
        proof {
            use_type_invariant(self);
        }
        let mut v: Vec<(String, u64)> = Vec::new();
        let mut i: usize = 0;
        while i < self.entries.len()
            invariant
                i <= self.entries@.len(),
                files_view(v@) == files_view(self.entries@).take(i as int),
            decreases self.entries@.len() - i,
        {
            let ghost old_v = v@;
            let e = (self.entries[i].0.clone(), self.entries[i].1);
            v.push(e);
            assert(files_view(v@) =~= files_view(old_v).push((e.0@, e.1)));
            i = i + 1;
            assert(files_view(v@) =~= files_view(self.entries@).take(i as int));
        }
        assert(files_view(self.entries@).take(i as int) =~= files_view(self.entries@));
        FileTable { entries: v }
    }

}

/// What a `BTreeMap` promises of `insert`: afterwards the path is listed
/// with the new time, exactly once; every other path keeps its time; and
/// the table grew by one exactly when the path was not listed before.
pub proof fn law_table_insert(s: Seq<(Seq<char>, u64)>, path: Seq<char>, mtime: u64)
    requires
        strictly_ascending(s),
    ensures
        ({
            let t = table_insert(s, path, mtime);
            &&& t.contains((path, mtime))
            &&& forall|j: int| 0 <= j < t.len() && (#[trigger] t[j]).0 == path ==> t[j].1 == mtime
            &&& forall|j: int| 0 <= j < s.len() && (#[trigger] s[j]).0 != path ==> t.contains(s[j])
            &&& t.len() == if has_path(s, path) { s.len() } else { s.len() + 1 }
        }),
{
    lemma_insert_point(s, path);
    let i = insert_point(s, path) as int;
    let t = table_insert(s, path, mtime);
    let hit = i < s.len() && s[i].0 == path;
    if has_path(s, path) {
        let k = choose|k: int| 0 <= k < s.len() && (#[trigger] s[k]).0 == path;
        if k < i {
            lemma_lt_irreflexive(path);
        } else if k > i {
            assert(text_lt(s[i].0, s[k].0));
            lemma_lt_total(s[i].0, path);
            if s[i].0 != path {
                lemma_lt_asymmetric(s[i].0, path);
            }
        }
        assert(hit);
    }
    if hit {
        assert(has_path(s, path));
        assert(t[i] == (path, mtime));
        assert forall|j: int| 0 <= j < t.len() && (#[trigger] t[j]).0 == path implies t[j].1 == mtime by {
            if j != i {
                assert(t[j] == s[j]);
                if j < i {
                    lemma_lt_irreflexive(path);
                } else {
                    assert(text_lt(s[i].0, s[j].0));
                    lemma_lt_irreflexive(path);
                }
            }
        }
        assert forall|j: int| 0 <= j < s.len() && (#[trigger] s[j]).0 != path implies t.contains(s[j]) by {
            assert(t[j] == s[j]);
        }
    } else {
        assert(!has_path(s, path));
        assert(t[i] == (path, mtime));
        assert forall|j: int| 0 <= j < t.len() && (#[trigger] t[j]).0 == path implies t[j].1 == mtime by {
            if j < i {
                assert(t[j] == s[j]);
            } else if j > i {
                assert(t[j] == s[j - 1]);
            }
        }
        assert forall|j: int| 0 <= j < s.len() && (#[trigger] s[j]).0 != path implies t.contains(s[j]) by {
            if j < i {
                assert(t[j] == s[j]);
            } else {
                assert(t[j + 1] == s[j]);
            }
        }
    }
}

/// A stored index as the assistant's decisions see it.
#[derive(Debug, Clone)]
pub struct IndexSummary {
    /// Embedding model the index was built with.
    pub embed_model: String,
    /// Every indexed file with its modification time at index time.
    pub files: FileTable,
    /// Number of indexed chunks.
    pub chunks: usize,
}

/// The mathematical value of an [`IndexSummary`].
#[verifier::ext_equal]
pub struct IndexSummaryView {
    pub embed_model: Seq<char>,
    pub files: Seq<(Seq<char>, u64)>,
    pub chunks: usize,
}

impl View for IndexSummary {
    type V = IndexSummaryView;

    open spec fn view(&self) -> IndexSummaryView {
        IndexSummaryView {
            embed_model: self.embed_model@,
            files: self.files@,
            chunks: self.chunks,
        }
    }
}

/// Whether two file tables list the same files with the same times.
pub fn same_files(a: &FileTable, b: &FileTable) -> (r: bool)
    ensures
        r == (a@ == b@),
{
    let x = a.entries();
    let y = b.entries();
    if x.len() != y.len() {
        assert(files_view(x@).len() != files_view(y@).len());
        return false;
    }
    let mut i: usize = 0;
    while i < x.len()
        invariant
            x@.len() == y@.len(),
            files_view(x@) == a@,
            files_view(y@) == b@,
            i <= x@.len(),
            forall|k: int| 0 <= k < i ==> files_view(x@)[k] == files_view(y@)[k],
        decreases x@.len() - i,
    {
        if x[i].1 != y[i].1 || !str_eq(x[i].0.as_str(), y[i].0.as_str()) {
            assert(files_view(x@)[i as int] != files_view(y@)[i as int]);
            return false;
        }
        i = i + 1;
    }
    assert(files_view(x@) =~= files_view(y@));
    true
}

} // verus!
