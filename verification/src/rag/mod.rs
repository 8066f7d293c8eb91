//! Retrieval-augmented generation: chunking documents, deciding which
//! files get indexed, and the bookkeeping of an index build.

pub mod chunker;
pub mod index;

use vstd::prelude::*;
use crate::config::AssistantConfig;
use crate::ollama::{error_message, OllamaError};
use crate::text::{
    ascii_lower, ascii_lower_exec, chars_eq, chars_of, chars_of_all, join, push_all, split, string_of,
    string_views,
};
use chunker::{
    chunk_markdown, chunk_plaintext, chunk_views, markdown_chunks, plaintext_chunks, Chunk,
    ChunkView,
};
use index::{files_view, same_files, FileTable, IndexSummary, IndexSummaryView};

verus! {

/// Number of chunks embedded per request.
pub const EMBED_BATCH: usize = 16;

/// What an index build reports.
#[derive(Debug, Clone)]
pub enum IndexEvent {
    Progress { done: usize, total: usize },
    Finished(IndexSummary),
    Failed(String),
}

/// The components of a path as `std::path::Path` reads them for its file
/// name: the parts between slashes, repeated and trailing slashes and `.`
/// parts left out.
pub open spec fn path_components(path: Seq<char>) -> Seq<Seq<char>> {
    split(path, seq!['/']).filter(|c: Seq<char>| c.len() > 0 && c != seq!['.'])
}

/// `Path::file_name`: the last component, unless there is none or it is
/// `..`.
pub open spec fn file_name(path: Seq<char>) -> Option<Seq<char>> {
    let c = path_components(path);
    if c.len() == 0 || c.last() == seq!['.', '.'] {
        None
    } else {
        Some(c.last())
    }
}

/// The position of the last `.` of `f`, or `-1` where it has none.
pub open spec fn last_dot(f: Seq<char>) -> int
    decreases f.len(),
{
    if f.len() == 0 {
        -1
    } else if f.last() == '.' {
        f.len() - 1
    } else {
        last_dot(f.drop_last())
    }
}

/// `Path::extension`: the part of the file name after its last dot; none
/// without a file name, without a dot, or where the only dot starts the
/// name.
pub open spec fn path_extension(path: Seq<char>) -> Option<Seq<char>> {
    match file_name(path) {
        None => None,
        Some(f) => if last_dot(f) > 0 {
            Some(f.subrange(last_dot(f) + 1, f.len() as int))
        } else {
            None
        },
    }
}

/// The relative path that `std::path::Path::strip_prefix` leaves of `path`
/// under `root`, compared component by component.
pub uninterp spec fn path_strip_prefix(path: Seq<char>, root: Seq<char>) -> Option<Seq<char>>;

/// `Path::extension` of `path`, as text: the part of the file name after
/// its last dot, if the name has a dot that does not start it, as the
/// documentation of `Path::extension` and `Path::file_name` states it.
#[verifier::external_body]
fn extension_of(path: &str) -> (r: Option<String>)
    ensures
        match r {
            Some(e) => path_extension(path@) == Some(e@),
            None => path_extension(path@) is None,
        },
{
    std::path::Path::new(path).extension().map(|e| e.to_string_lossy().into_owned())
}

/// `Path::strip_prefix` of `path` by `root`, as text: the rest of the path
/// where `root`'s components start it. Only the name of the result is
/// stated.
#[verifier::external_body]
fn strip_root(path: &str, root: &str) -> (r: Option<String>)
    ensures
        match r {
            Some(rel) => path_strip_prefix(path@, root@) == Some(rel@),
            None => path_strip_prefix(path@, root@) is None,
        },
{
    std::path::Path::new(path).strip_prefix(root).ok().map(|p| p.to_string_lossy().into_owned())
}

/// A documentation extension, in any case: markdown (`md`, `markdown`) or
/// plain text (`txt`).
pub open spec fn is_doc_extension(ext: Option<Seq<char>>) -> bool {
    match ext {
        Some(e) => ascii_lower(e) == "md"@ || ascii_lower(e) == "markdown"@ || ascii_lower(e)
            == "txt"@,
        None => false,
    }
}

/// The plain-text extension `txt`, in any case.
pub open spec fn is_plaintext_extension(ext: Option<Seq<char>>) -> bool {
    match ext {
        Some(e) => ascii_lower(e) == "txt"@,
        None => false,
    }
}

/// The view of an optional string.
pub open spec fn opt_view(o: Option<&str>) -> Option<Seq<char>> {
    match o {
        Some(e) => Some(e@),
        None => None,
    }
}

/// Whether a file with this extension is indexed.
pub fn is_indexable_extension(ext: Option<&str>) -> (b: bool)
    ensures
        b == is_doc_extension(opt_view(ext)),
{
    match ext {
        Some(e) => {
            let l = ascii_lower_exec(&chars_of(e));
            chars_eq(&l, &chars_of("md")) || chars_eq(&l, &chars_of("markdown")) || chars_eq(
                &l,
                &chars_of("txt"),
            )
        },
        None => false,
    }
}

/// Whether a file with this extension is chunked as plain text.
pub fn is_plaintext_file_extension(ext: Option<&str>) -> (b: bool)
    ensures
        b == is_plaintext_extension(opt_view(ext)),
{
    match ext {
        Some(e) => chars_eq(&ascii_lower_exec(&chars_of(e)), &chars_of("txt")),
        None => false,
    }
}

/// Documentation files are those with a documentation extension.
pub open spec fn is_indexable_spec(path: Seq<char>) -> bool {
    is_doc_extension(path_extension(path))
}

/// Whether a file with this path is indexed.
pub fn is_indexable(path: &str) -> (b: bool)
    ensures
        b == is_indexable_spec(path@),
{
    match extension_of(path) {
        Some(e) => is_indexable_extension(Some(e.as_str())),
        None => is_indexable_extension(None),
    }
}

/// The first relative path in `stripped`, else `path` itself.
pub open spec fn first_some(path: Seq<char>, stripped: Seq<Option<Seq<char>>>) -> Seq<char>
    decreases stripped.len(),
{
    if stripped.len() == 0 {
        path
    } else {
        match stripped[0] {
            Some(rel) => rel,
            None => first_some(path, stripped.drop_first()),
        }
    }
}

/// What each docs folder leaves of `path` when it starts it.
pub open spec fn stripped_by(path: Seq<char>, roots: Seq<Seq<char>>) -> Seq<Option<Seq<char>>> {
    roots.map_values(|r: Seq<char>| path_strip_prefix(path, r))
}

/// The source name of a file: its path relative to the first docs folder
/// that holds it, else the whole path.
pub open spec fn source_name(path: Seq<char>, roots: Seq<Seq<char>>) -> Seq<char> {
    first_some(path, stripped_by(path, roots))
}

/// The views of optional strings.
pub open spec fn opt_views(v: Seq<Option<String>>) -> Seq<Option<Seq<char>>> {
    v.map_values(
        |o: Option<String>|
            match o {
                Some(s) => Some(s@),
                None => None,
            },
    )
}

/// The first relative path found, else the path itself: the source name
/// once each docs folder has been tried on the path, in order.
pub fn first_stripped(path: &str, stripped: &Vec<Option<String>>) -> (s: String)
    ensures
        s@ == first_some(path@, opt_views(stripped@)),
{
    let ghost all = opt_views(stripped@);
    let mut i: usize = 0;
    assert(all.subrange(0, all.len() as int) =~= all);
    while i < stripped.len()
        invariant
            i <= stripped@.len(),
            all == opt_views(stripped@),
            first_some(path@, all) == first_some(path@, all.subrange(i as int, all.len() as int)),
        decreases stripped@.len() - i,
    {
        let ghost rest = all.subrange(i as int, all.len() as int);
        match &stripped[i] {
            Some(rel) => {
                assert(rest[0] == Some(rel@));
                return rel.clone();
            },
            None => {
                assert(rest[0] is None);
                assert(rest.drop_first() =~= all.subrange(i + 1, all.len() as int));
            },
        }
        i = i + 1;
    }
    path.to_owned()
}

/// The source name of a file under the docs folders.
pub fn source_for(path: &str, docs_paths: &Vec<String>) -> (s: String)
    ensures
        s@ == source_name(path@, string_views(docs_paths@)),
{
    let mut stripped: Vec<Option<String>> = Vec::new();
    let mut i: usize = 0;
    while i < docs_paths.len()
        invariant
            i <= docs_paths@.len(),
            opt_views(stripped@) == stripped_by(path@, string_views(docs_paths@)).take(i as int),
        decreases docs_paths@.len() - i,
    {
        let ghost old_s = stripped@;
        let r = strip_root(path, docs_paths[i].as_str());
        stripped.push(r);
        assert(opt_views(stripped@) =~= opt_views(old_s).push(
            path_strip_prefix(path@, docs_paths@[i as int]@),
        ));
        i = i + 1;
        assert(opt_views(stripped@) =~= stripped_by(path@, string_views(docs_paths@)).take(
            i as int,
        ));
    }
    assert(stripped_by(path@, string_views(docs_paths@)).take(i as int) =~= stripped_by(
        path@,
        string_views(docs_paths@),
    ));
    first_stripped(path, &stripped)
}

/// The chunks of one file: plain-text chunking for `.txt`, markdown
/// chunking for the rest, under the file's source name.
pub open spec fn file_chunks(path: Seq<char>, roots: Seq<Seq<char>>, content: Seq<char>) -> Seq<
    ChunkView,
> {
    let source = source_name(path, roots);
    if is_plaintext_extension(path_extension(path)) {
        plaintext_chunks(source, content)
    } else {
        markdown_chunks(source, content)
    }
}

/// The chunks of one file that was read.
pub fn chunk_file(path: &str, docs_paths: &Vec<String>, content: &str) -> (chunks: Vec<Chunk>)
    ensures
        chunk_views(chunks@) == file_chunks(path@, string_views(docs_paths@), content@),
{
    let source = source_for(path, docs_paths);
    let plain = match extension_of(path) {
        Some(e) => is_plaintext_file_extension(Some(e.as_str())),
        None => is_plaintext_file_extension(None),
    };
    if plain {
        chunk_plaintext(source.as_str(), content)
    } else {
        chunk_markdown(source.as_str(), content)
    }
}

/// Each listed file with its content: the `i`-th content belongs to the
/// `i`-th file, and a file past the end of `contents` could not be read.
pub open spec fn paired(files: Seq<(Seq<char>, u64)>, contents: Seq<Option<Seq<char>>>) -> Seq<
    (Seq<char>, Option<Seq<char>>),
> {
    Seq::new(
        files.len(),
        |i: int| (files[i].0, if i < contents.len() { contents[i] } else { None }),
    )
}

/// The chunks of the files, in order; a file that could not be read gives
/// none.
pub open spec fn collected(files: Seq<(Seq<char>, Option<Seq<char>>)>, roots: Seq<Seq<char>>) -> Seq<
    ChunkView,
>
    decreases files.len(),
{
    if files.len() == 0 {
        Seq::empty()
    } else {
        collected(files.drop_last(), roots) + match files.last().1 {
            Some(content) => file_chunks(files.last().0, roots, content),
            None => Seq::empty(),
        }
    }
}

/// Chunks all indexed files in path order; `contents[i]` is the content
/// of the `i`-th file of `files`, `None` where it could not be read.
pub fn collect_chunks(files: &FileTable, contents: &Vec<Option<String>>, docs_paths: &Vec<String>) -> (chunks: Vec<Chunk>)
    ensures
        chunk_views(chunks@) == collected(
            paired(files@, opt_views(contents@)),
            string_views(docs_paths@),
        ),
{
    let ghost roots = string_views(docs_paths@);
    let ghost all = paired(files@, opt_views(contents@));
    let entries = files.entries();
    let mut chunks: Vec<Chunk> = Vec::new();
    let mut i: usize = 0;
    assert(chunk_views(chunks@) =~= Seq::empty());
    assert(all.take(0) =~= Seq::empty());
    while i < entries.len()
        invariant
            i <= entries@.len(),
            files_view(entries@) == files@,
            all == paired(files@, opt_views(contents@)),
            roots == string_views(docs_paths@),
            chunk_views(chunks@) == collected(all.take(i as int), roots),
        decreases entries@.len() - i,
    {
        let ghost before = chunk_views(chunks@);
        assert(all.take(i + 1).drop_last() =~= all.take(i as int));
        assert(all.take(i + 1).last() == all[i as int]);
        if i < contents.len() {
            match &contents[i] {
                Some(content) => {
                    let mut more = chunk_file(entries[i].0.as_str(), docs_paths, content.as_str());
                    let ghost added = chunk_views(more@);
                    chunks.append(&mut more);
                    assert(chunk_views(chunks@) =~= before + added);
                },
                None => {
                    assert(chunk_views(chunks@) =~= before + Seq::empty());
                },
            }
        } else {
            assert(chunk_views(chunks@) =~= before + Seq::empty());
        }
        i = i + 1;
    }
    assert(all.take(i as int) =~= all);
    chunks
}

/// An index must be rebuilt when there is none, when it was built with
/// another embedding model, or when the documentation files changed.
pub open spec fn needs_rebuild_spec(
    existing: Option<IndexSummaryView>,
    embed_model: Seq<char>,
    scanned: Seq<(Seq<char>, u64)>,
) -> bool {
    match existing {
        None => true,
        Some(idx) => idx.embed_model != embed_model || idx.files != scanned,
    }
}

/// Whether the index must be rebuilt, given the files found now.
pub fn needs_rebuild(
    existing: Option<&IndexSummary>,
    cfg: &AssistantConfig,
    scanned: &FileTable,
) -> (b: bool)
    ensures
        b == needs_rebuild_spec(
            match existing {
                Some(i) => Some(i@),
                None => None,
            },
            cfg.embed_model@,
            scanned@,
        ),
{
    match existing {
        None => true,
        Some(idx) => !chars_eq(
            &chars_of(idx.embed_model.as_str()),
            &chars_of(cfg.embed_model.as_str()),
        ) || !same_files(&idx.files, scanned),
    }
}

/// The report of a build that found nothing to index.
pub open spec fn no_files_message(docs_paths: Seq<Seq<char>>) -> Seq<char> {
    "No .md or .txt files found in: "@ + join(docs_paths, ", "@)
}

/// The report of a build whose index could not be saved.
pub open spec fn save_failed_message(detail: Seq<char>) -> Seq<char> {
    "failed to save index: "@ + detail
}

/// The report of a build whose index could not be saved.
pub fn save_failed(detail: &str) -> (s: String)
    ensures
        s@ == save_failed_message(detail@),
{
    let mut out = chars_of("failed to save index: ");
    push_all(&mut out, &chars_of(detail));
    string_of(&out)
}

fn no_files(docs_paths: &Vec<String>) -> (s: String)
    ensures
        s@ == no_files_message(string_views(docs_paths@)),
{
    let parts = chars_of_all(docs_paths);
    let joined = crate::text::join_exec(&parts, &chars_of(", "));
    let mut out = chars_of("No .md or .txt files found in: ");
    push_all(&mut out, &joined);
    string_of(&out)
}

/// The embedding of an index's chunks, batch by batch.
pub struct IndexBuild {
    chunks: Vec<Chunk>,
    done: usize,
}

impl IndexBuild {
    /// The chunks to embed.
    pub closed spec fn chunks_spec(&self) -> Seq<ChunkView> {
        chunk_views(self.chunks@)
    }

    /// How many chunks are embedded so far.
    pub closed spec fn done_spec(&self) -> nat {
        self.done as nat
    }

    #[verifier::type_invariant]
    spec fn progress_in_range(&self) -> bool {
        self.done <= self.chunks@.len()
    }

    /// The first chunk of the next batch onward, at most one batch of them.
    pub open spec fn batch_end(&self) -> nat {
        if self.done_spec() + (EMBED_BATCH as nat) < self.chunks_spec().len() {
            self.done_spec() + EMBED_BATCH as nat
        } else {
            self.chunks_spec().len()
        }
    }

    /// Starts a build of the given chunks; with no chunks there is nothing
    /// to build and the report names the docs folders.
    pub fn start(chunks: Vec<Chunk>, docs_paths: &Vec<String>) -> (r: Result<Self, String>)
        ensures
            match r {
                Ok(b) => chunks@.len() > 0 && b.chunks_spec() == chunk_views(chunks@)
                    && b.done_spec() == 0,
                Err(msg) => chunks@.len() == 0 && msg@ == no_files_message(
                    string_views(docs_paths@),
                ),
            },
    {
        if chunks.len() == 0 {
            Err(no_files(docs_paths))
        } else {
            Ok(IndexBuild { chunks, done: 0 })
        }
    }

    /// Number of chunks to embed.
    pub fn total(&self) -> (n: usize)
        ensures
            n == self.chunks_spec().len(),
    {
        self.chunks.len()
    }

    /// The index a build made, once every chunk is embedded: the embedding
    /// model, the files its chunks came from and the number of chunks;
    /// `None` while chunks are left.
    pub fn finished_summary(&self, embed_model: &str, files: FileTable) -> (r: Option<IndexSummary>)
        ensures
            r is Some <==> self.done_spec() == self.chunks_spec().len(),
            r matches Some(s) ==> s@ == (IndexSummaryView {
                embed_model: embed_model@,
                files: files@,
                chunks: self.chunks_spec().len() as usize,
            }),
    {
        if self.done == self.chunks.len() {
            Some(IndexSummary { embed_model: string_of(&chars_of(embed_model)), files, chunks: self.chunks.len() })
        } else {
            None
        }
    }

    /// Number of chunks embedded so far.
    pub fn done(&self) -> (n: usize)
        ensures
            n == self.done_spec(),
            n <= self.chunks_spec().len(),
    {
        proof {
            use_type_invariant(self);
        }
        self.done
    }

    /// The chunks of the next batch: up to one batch after those embedded;
    /// `None` when all are embedded.
    pub fn next_batch(&self) -> (r: Option<Vec<Chunk>>)
        ensures
            match r {
                Some(batch) => self.done_spec() < self.chunks_spec().len() && chunk_views(batch@)
                    == self.chunks_spec().subrange(
                    self.done_spec() as int,
                    self.batch_end() as int,
                ),
                None => self.done_spec() == self.chunks_spec().len(),
            },
    {
        proof {
            use_type_invariant(self);
        }
        if self.done == self.chunks.len() {
            return None;
        }
        let end = if self.chunks.len() - self.done > EMBED_BATCH {
            self.done + EMBED_BATCH
        } else {
            self.chunks.len()
        };
        let mut batch: Vec<Chunk> = Vec::new();
        let mut i = self.done;
        while i < end
            invariant
                self.done <= i <= end <= self.chunks@.len(),
                chunk_views(batch@) == chunk_views(self.chunks@).subrange(
                    self.done as int,
                    i as int,
                ),
            decreases end - i,
        {
            let c = &self.chunks[i];
            let copy = Chunk {
                source: c.source.clone(),
                heading_path: c.heading_path.clone(),
                text: c.text.clone(),
            };
            let ghost old_b = batch@;
            assert(copy@ == self.chunks@[i as int]@);
            batch.push(copy);
            assert(chunk_views(batch@) =~= chunk_views(old_b).push(copy@));
            i = i + 1;
            assert(chunk_views(batch@) =~= chunk_views(self.chunks@).subrange(
                self.done as int,
                i as int,
            ));
        }
        Some(batch)
    }

    /// The progress report of the build so far.
    pub fn progress_event(&self) -> (ev: IndexEvent)
        ensures
            event_view(ev) == (BuildEvent::Progress {
                done: self.done_spec(),
                total: self.chunks_spec().len(),
            }),
    {
        IndexEvent::Progress { done: self.done, total: self.chunks.len() }
    }

    /// Records the outcome of embedding the next batch and reports it: the
    /// progress to the batch's end, or the failure that ends the build.
    pub fn record(&mut self, outcome: Result<usize, OllamaError>) -> (ev: IndexEvent)
        requires
            old(self).done_spec() < old(self).chunks_spec().len(),
        ensures
            final(self).chunks_spec() == old(self).chunks_spec(),
            event_view(ev) == step_event(
                old(self).done_spec(),
                old(self).chunks_spec().len(),
                outcome_view(outcome),
            ),
            final(self).done_spec() == match event_view(ev) {
                BuildEvent::Progress { done, total: _ } => done,
                _ => old(self).done_spec(),
            },
    {
        match outcome {
            Ok(count) => match self.on_embedded(count) {
                Ok((done, total)) => IndexEvent::Progress { done, total },
                Err(msg) => IndexEvent::Failed(msg),
            },
            Err(e) => IndexEvent::Failed(e.message()),
        }
    }

    /// Records the embeddings that came back for the next batch: a count
    /// that differs from the batch's size fails the build; otherwise the
    /// batch is done and the progress `(done, total)` is reported.
    pub fn on_embedded(&mut self, count: usize) -> (r: Result<(usize, usize), String>)
        requires
            old(self).done_spec() < old(self).chunks_spec().len(),
        ensures
            final(self).chunks_spec() == old(self).chunks_spec(),
            match r {
                Ok((done, total)) => count == old(self).batch_end() - old(self).done_spec()
                    && final(self).done_spec() == old(self).batch_end() && done
                    == old(self).batch_end() && total == old(self).chunks_spec().len(),
                Err(msg) => count != old(self).batch_end() - old(self).done_spec()
                    && final(self).done_spec() == old(self).done_spec() && msg@
                    == "embedding count mismatch"@,
            },
    {
        proof {
            use_type_invariant(&*self);
        }
        let end = if self.chunks.len() - self.done > EMBED_BATCH {
            self.done + EMBED_BATCH
        } else {
            self.chunks.len()
        };
        if count != end - self.done {
            return Err("embedding count mismatch".to_owned());
        }
        self.done = end;
        Ok((end, self.chunks.len()))
    }
}


/// What an index build reports, as a value.
pub enum BuildEvent {
    Progress { done: nat, total: nat },
    Finished(IndexSummaryView),
    Failed(Seq<char>),
}

/// The value of a reported event.
pub open spec fn event_view(ev: IndexEvent) -> BuildEvent {
    match ev {
        IndexEvent::Progress { done, total } => BuildEvent::Progress {
            done: done as nat,
            total: total as nat,
        },
        IndexEvent::Finished(sum) => BuildEvent::Finished(sum@),
        IndexEvent::Failed(m) => BuildEvent::Failed(m@),
    }
}

/// The outcome of embedding a batch: the number of vectors that came
/// back, or the error's message.
pub open spec fn outcome_view(r: Result<usize, OllamaError>) -> Result<nat, Seq<char>> {
    match r {
        Ok(n) => Ok(n as nat),
        Err(e) => Err(error_message(e)),
    }
}

/// The end of the batch that starts at `done`.
pub open spec fn next_end(done: nat, total: nat) -> nat {
    if done + (EMBED_BATCH as nat) < total {
        done + EMBED_BATCH as nat
    } else {
        total
    }
}

/// The event for the outcome of the batch that starts at `done`: progress
/// to the batch's end when as many vectors came back as it has chunks,
/// else a failure.
pub open spec fn step_event(done: nat, total: nat, outcome: Result<nat, Seq<char>>) -> BuildEvent {
    match outcome {
        Err(msg) => BuildEvent::Failed(msg),
        Ok(count) => if count == next_end(done, total) - done {
            BuildEvent::Progress { done: next_end(done, total), total: total }
        } else {
            BuildEvent::Failed("embedding count mismatch"@)
        },
    }
}

/// The event that ends a build whose batches are all embedded: the
/// finished index once it is saved, else the save failure.
pub open spec fn saved_view(saved: Result<IndexSummaryView, Seq<char>>) -> BuildEvent {
    match saved {
        Ok(sum) => BuildEvent::Finished(sum),
        Err(detail) => BuildEvent::Failed(save_failed_message(detail)),
    }
}

/// The events of a build from `done` on, given the outcomes of the
/// remaining batches and of the save.
pub open spec fn run_events(
    done: nat,
    total: nat,
    outcomes: Seq<Result<nat, Seq<char>>>,
    saved: Result<IndexSummaryView, Seq<char>>,
) -> Seq<BuildEvent>
    decreases outcomes.len(),
{
    if done >= total {
        seq![saved_view(saved)]
    } else if outcomes.len() == 0 {
        Seq::empty()
    } else {
        let ev = step_event(done, total, outcomes[0]);
        match ev {
            BuildEvent::Progress { done: d, total: _ } => if d > done {
                seq![ev] + run_events(d, total, outcomes.drop_first(), saved)
            } else {
                seq![ev]
            },
            _ => seq![ev],
        }
    }
}

/// The events of a whole build of `total` chunks.
pub open spec fn build_events(
    total: nat,
    outcomes: Seq<Result<nat, Seq<char>>>,
    saved: Result<IndexSummaryView, Seq<char>>,
) -> Seq<BuildEvent> {
    seq![BuildEvent::Progress { done: 0, total: total }] + run_events(0, total, outcomes, saved)
}

/// A progress report, as opposed to the event that ends a build.
pub open spec fn is_progress(e: BuildEvent) -> bool {
    e is Progress
}

/// The smaller of `a` and `b`.
pub open spec fn min_nat(a: nat, b: nat) -> nat {
    if a < b {
        a
    } else {
        b
    }
}

proof fn lemma_run_events(k: nat, total: nat, outcomes: Seq<Result<nat, Seq<char>>>, saved: Result<IndexSummaryView, Seq<char>>)
    requires
        outcomes.len() * 16 + k * 16 >= total,
    ensures
        ({
            let evs = run_events(min_nat(k * 16, total), total, outcomes, saved);
            &&& evs.len() >= 1
            &&& !is_progress(evs.last())
            &&& forall|i: int|
                0 <= i < evs.len() - 1 ==> #[trigger] evs[i] == (BuildEvent::Progress {
                    done: min_nat(((k + i + 1) * 16) as nat, total),
                    total: total,
                })
            &&& (evs.last() == saved_view(saved) || (evs.len() - 1 < outcomes.len()
                && evs.last() == step_event(
                min_nat(((k + evs.len() - 1) * 16) as nat, total),
                total,
                outcomes[evs.len() - 1],
            )))
        }),
    decreases outcomes.len(),
{
    let done = min_nat(k * 16, total);
    if done < total {
        let ev = step_event(done, total, outcomes[0]);
        assert(next_end(done, total) == min_nat((k + 1) * 16, total));
        if ev is Progress {
            lemma_run_events(k + 1, total, outcomes.drop_first(), saved);
            let rest = run_events(min_nat((k + 1) * 16, total), total, outcomes.drop_first(), saved);
            let evs = run_events(done, total, outcomes, saved);
            assert(evs == seq![ev] + rest);
            assert forall|i: int| 0 <= i < evs.len() - 1 implies #[trigger] evs[i] == (
            BuildEvent::Progress { done: min_nat(((k + i + 1) * 16) as nat, total), total: total }) by {
                if i > 0 {
                    assert(evs[i] == rest[i - 1]);
                    assert(k + 1 + (i - 1) + 1 == k + i + 1);
                }
            }
            assert(evs.last() == rest.last());
            assert(k + 1 + (rest.len() - 1) == k + evs.len() - 1);
            if rest.last() != saved_view(saved) {
                assert(outcomes.drop_first()[rest.len() - 1] == outcomes[evs.len() - 1]);
            }
        }
    }
}

/// A build of `total` chunks reports `Progress { done: 0, total }` first,
/// then after the `i`-th embedded batch `Progress { done: min(16 i, total),
/// total }`, and ends with exactly one event that is not progress: the
/// outcome of saving once every batch is embedded (the finished index, or
/// the save failure), or else the failure that the outcome of the last
/// batch tried gives (its error's message, or the count mismatch).
pub proof fn law_build_events(total: nat, outcomes: Seq<Result<nat, Seq<char>>>, saved: Result<IndexSummaryView, Seq<char>>)
    requires
        outcomes.len() * EMBED_BATCH >= total,
    ensures
        ({
            let evs = build_events(total, outcomes, saved);
            &&& evs[0] == (BuildEvent::Progress { done: 0, total: total })
            &&& forall|i: int|
                0 <= i < evs.len() - 1 ==> #[trigger] evs[i] == (BuildEvent::Progress {
                    done: min_nat(i as nat * 16, total),
                    total: total,
                })
            &&& !is_progress(evs.last())
            &&& evs.len() >= 2
            &&& (evs.last() == saved_view(saved) || (evs.len() - 2 < outcomes.len()
                && evs.last() == step_event(
                min_nat(((evs.len() - 2) * 16) as nat, total),
                total,
                outcomes[evs.len() - 2],
            )))
        }),
{
    lemma_run_events(0, total, outcomes, saved);
    let rest = run_events(min_nat(0 * 16, total), total, outcomes, saved);
    assert(min_nat(0 * 16, total) == 0);
    let evs = build_events(total, outcomes, saved);
    assert(evs.last() == rest.last());
    assert(0 + (rest.len() - 1) == evs.len() - 2);
    assert forall|i: int| 0 <= i < evs.len() - 1 implies #[trigger] evs[i] == (
    BuildEvent::Progress { done: min_nat(i as nat * 16, total), total: total }) by {
        if i > 0 {
            assert(evs[i] == rest[i - 1]);
            assert(0 + (i - 1) + 1 == i);
        }
    }
}

/// Which of the `count` vectors the server returned for a query is the
/// query's embedding: the last one; with none the retrieval fails.
pub fn query_vector_index(count: usize) -> (r: Result<usize, OllamaError>)
    ensures
        count > 0 ==> r == Ok::<usize, OllamaError>((count - 1) as usize),
        count == 0 ==> (r matches Err(OllamaError::Other(m)) && m@ == "empty embedding response"@),
{
    if count > 0 {
        Ok(count - 1)
    } else {
        let m = "empty embedding response";
        proof {
            reveal_strlit("empty embedding response");
        }
        Err(OllamaError::Other(string_of(&chars_of(m))))
    }
}

/// The event that ends a build whose batches are all embedded.
pub fn saved_event(saved: Result<IndexSummary, String>) -> (ev: IndexEvent)
    ensures
        event_view(ev) == saved_view(
            match saved {
                Ok(s) => Ok(s@),
                Err(d) => Err(d@),
            },
        ),
{
    match saved {
        Ok(sum) => IndexEvent::Finished(sum),
        Err(detail) => IndexEvent::Failed(save_failed(detail.as_str())),
    }
}

/// An index is fresh for the model that built it and the files it was
/// built from; without an index a build is always needed.
pub proof fn law_fresh_index_needs_no_rebuild(idx: IndexSummaryView, scanned: Seq<(Seq<char>, u64)>, model: Seq<char>)
    ensures
        !needs_rebuild_spec(Some(idx), idx.embed_model, idx.files),
        needs_rebuild_spec(None, model, scanned),
{
}

/// With the model the index was built with, the index must be rebuilt
/// exactly when the files found now differ from those it was built from:
/// a changed time, a renamed file, and a file added or removed anywhere,
/// first or last, all count. Another model always asks for a rebuild.
pub proof fn law_rebuild_when_files_change(idx: IndexSummaryView, scanned: Seq<(Seq<char>, u64)>, model: Seq<char>)
    ensures
        needs_rebuild_spec(Some(idx), idx.embed_model, scanned) == (idx.files != scanned),
        idx.files.len() != scanned.len() ==> needs_rebuild_spec(Some(idx), idx.embed_model, scanned),
        (exists|k: int| 0 <= k < idx.files.len() && k < scanned.len() && idx.files[k] != scanned[k])
            ==> needs_rebuild_spec(Some(idx), idx.embed_model, scanned),
        model != idx.embed_model ==> needs_rebuild_spec(Some(idx), model, scanned),
{
}

/// Each batch holds at least one and at most [`EMBED_BATCH`] chunks, and
/// the batches follow each other without gap until all are embedded.
pub proof fn law_batches_cover_chunks(b: IndexBuild)
    requires
        b.done_spec() < b.chunks_spec().len(),
    ensures
        0 < b.batch_end() - b.done_spec() <= EMBED_BATCH,
        b.batch_end() <= b.chunks_spec().len(),
        b.batch_end() == b.chunks_spec().len() || b.batch_end() == b.done_spec() + EMBED_BATCH,
{
}
} // verus!
