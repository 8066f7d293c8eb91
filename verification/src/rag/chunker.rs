//! Heading-aware chunking of documentation for embedding.

use vstd::prelude::*;
use crate::text::{
    chars_of, join, join_exec, lines, lines_of, push_all, split, split_exec, starts_with,
    starts_with_exec, string_of, subvec, trim, trim_exec, trim_start, trim_start_exec, utf8_len,
    utf8_len_capped, views,
};

verus! {

/// Sections shorter than this many UTF-8 bytes merge into the previous chunk.
pub const MIN_CHUNK_CHARS: usize = 200;

/// Sections longer than this many UTF-8 bytes split at paragraph boundaries.
pub const MAX_CHUNK_CHARS: usize = 1500;

/// A chunk of documentation ready for embedding.
#[derive(Debug, Clone)]
pub struct Chunk {
    /// Path relative to the docs root it was found in.
    pub source: String,
    /// "Networking > Wi-Fi setup" style breadcrumb of headings.
    pub heading_path: String,
    /// Chunk body, heading path included, as sent to the embedder.
    pub text: String,
}

/// The mathematical value of a [`Chunk`].
pub struct ChunkView {
    pub source: Seq<char>,
    pub heading_path: Seq<char>,
    pub text: Seq<char>,
}

impl View for Chunk {
    type V = ChunkView;

    open spec fn view(&self) -> ChunkView {
        ChunkView { source: self.source@, heading_path: self.heading_path@, text: self.text@ }
    }
}

/// The views of a sequence of chunks.
pub open spec fn chunk_views(v: Seq<Chunk>) -> Seq<ChunkView> {
    v.map_values(|c: Chunk| c@)
}

/// `" > "`, the separator of a heading breadcrumb.
pub open spec fn crumb_sep() -> Seq<char> {
    seq![' ', '>', ' ']
}

/// `"\n\n"`, the paragraph separator.
pub open spec fn para_sep() -> Seq<char> {
    seq!['\n', '\n']
}

/// The first line of every chunk: `[source]` or `[source > heading path]`.
pub open spec fn chunk_header(source: Seq<char>, heading_path: Seq<char>) -> Seq<char> {
    if heading_path.len() == 0 {
        seq!['['] + source + seq![']', '\n']
    } else {
        seq!['['] + source + crumb_sep() + heading_path + seq![']', '\n']
    }
}

/// The chunk made of one part of a section.
pub open spec fn make_chunk_spec(source: Seq<char>, heading_path: Seq<char>, body: Seq<char>) -> ChunkView {
    ChunkView {
        source: source,
        heading_path: heading_path,
        text: chunk_header(source, heading_path) + body,
    }
}

/// The chunks made of the parts of a section.
pub open spec fn made_chunks(source: Seq<char>, heading_path: Seq<char>, parts: Seq<Seq<char>>) -> Seq<ChunkView> {
    parts.map_values(|part: Seq<char>| make_chunk_spec(source, heading_path, part))
}

/// Paragraphs packed greedily into parts so far, and the part being filled.
pub struct Packing {
    pub parts: Seq<Seq<char>>,
    pub current: Seq<char>,
}

/// One paragraph added: the part being filled is closed first when it is
/// non-empty and its length plus the paragraph's exceeds the maximum.
pub open spec fn pack_step(st: Packing, para: Seq<char>) -> Packing {
    let full = st.current.len() > 0 && utf8_len(st.current) + utf8_len(para)
        > MAX_CHUNK_CHARS;
    let parts = if full {
        st.parts.push(st.current)
    } else {
        st.parts
    };
    let kept = if full {
        Seq::empty()
    } else {
        st.current
    };
    let joined = if kept.len() > 0 {
        kept + para_sep()
    } else {
        kept
    };
    Packing { parts: parts, current: joined + para }
}

/// The packing of a sequence of paragraphs.
pub open spec fn pack(paras: Seq<Seq<char>>) -> Packing
    decreases paras.len(),
{
    if paras.len() == 0 {
        Packing { parts: Seq::empty(), current: Seq::empty() }
    } else {
        pack_step(pack(paras.drop_last()), paras.last())
    }
}

/// A body of at most the maximum length stays whole; a longer one is split
/// at `"\n\n"` and its paragraphs packed into parts.
pub open spec fn split_long_spec(body: Seq<char>) -> Seq<Seq<char>> {
    if utf8_len(body) <= MAX_CHUNK_CHARS {
        seq![body]
    } else {
        let st = pack(split(body, para_sep()));
        if st.current.len() > 0 {
            st.parts.push(st.current)
        } else {
            st.parts
        }
    }
}

/// The state of the line-by-line reading of a markdown document.
pub struct Outline {
    /// Finished sections: the heading titles above them and their body.
    pub sections: Seq<(Seq<Seq<char>>, Seq<char>)>,
    /// Open headings, each with its level.
    pub stack: Seq<(usize, Seq<char>)>,
    /// Lines of the section being read, each followed by `'\n'`.
    pub current: Seq<char>,
    /// Inside a fenced code block.
    pub in_fence: bool,
}

/// A line (already trimmed at the start) that opens or closes a code fence.
pub open spec fn is_fence(t: Seq<char>) -> bool {
    starts_with(t, seq!['`', '`', '`']) || starts_with(t, seq!['~', '~', '~'])
}

/// Number of `'#'` at the start of `t`.
pub open spec fn hash_run(t: Seq<char>) -> nat
    decreases t.len(),
{
    if t.len() > 0 && t[0] == '#' {
        1 + hash_run(t.drop_first())
    } else {
        0
    }
}

/// The level of a heading line (trimmed at the start): one to three `'#'`
/// followed by a space.
pub open spec fn heading_level(t: Seq<char>) -> Option<usize> {
    let l = hash_run(t);
    if t.len() > 0 && t[0] == '#' && 1 <= l <= 3 && l < t.len() && t[l as int] == ' ' {
        Some(l as usize)
    } else {
        None
    }
}

/// The titles of the open headings.
pub open spec fn titles(stack: Seq<(usize, Seq<char>)>) -> Seq<Seq<char>> {
    stack.map_values(|e: (usize, Seq<char>)| e.1)
}

/// The open headings of a level below `level`.
pub open spec fn retain_below(stack: Seq<(usize, Seq<char>)>, level: usize) -> Seq<(usize, Seq<char>)>
    decreases stack.len(),
{
    if stack.len() == 0 {
        Seq::empty()
    } else {
        let r = retain_below(stack.drop_last(), level);
        if stack.last().0 < level {
            r.push(stack.last())
        } else {
            r
        }
    }
}

/// The section being read closed: kept when its trimmed body is not empty.
pub open spec fn flush(o: Outline) -> Outline {
    let body = trim(o.current);
    Outline {
        sections: if body.len() > 0 {
            o.sections.push((titles(o.stack), body))
        } else {
            o.sections
        },
        stack: o.stack,
        current: Seq::empty(),
        in_fence: o.in_fence,
    }
}

/// One line read.
pub open spec fn outline_step(o: Outline, line: Seq<char>) -> Outline {
    let t = trim_start(line);
    let appended = o.current + line + seq!['\n'];
    if is_fence(t) {
        Outline { sections: o.sections, stack: o.stack, current: appended, in_fence: !o.in_fence }
    } else {
        match if o.in_fence {
            None
        } else {
            heading_level(t)
        } {
            Some(l) => {
                let f = flush(o);
                Outline {
                    sections: f.sections,
                    stack: retain_below(f.stack, l).push(
                        (l, trim(t.subrange(l as int, t.len() as int))),
                    ),
                    current: f.current,
                    in_fence: f.in_fence,
                }
            },
            None => Outline {
                sections: o.sections,
                stack: o.stack,
                current: appended,
                in_fence: o.in_fence,
            },
        }
    }
}

/// The outline after reading the lines `ls`.
pub open spec fn outline_of(ls: Seq<Seq<char>>) -> Outline
    decreases ls.len(),
{
    if ls.len() == 0 {
        Outline {
            sections: Seq::empty(),
            stack: Seq::empty(),
            current: Seq::empty(),
            in_fence: false,
        }
    } else {
        outline_step(outline_of(ls.drop_last()), ls.last())
    }
}

/// The sections of a markdown document: split at h1-h3 headings outside
/// code fences, each with the titles of the headings above it.
pub open spec fn sections_of(content: Seq<char>) -> Seq<(Seq<Seq<char>>, Seq<char>)> {
    flush(outline_of(lines(content))).sections
}

/// `"## heading path\n"` where the path is not empty.
pub open spec fn heading_note(heading_path: Seq<char>) -> Seq<char> {
    if heading_path.len() > 0 {
        seq!['#', '#', ' '] + heading_path + seq!['\n']
    } else {
        Seq::empty()
    }
}

/// One section placed: a short one is appended to the previous chunk,
/// any other becomes one chunk per part of it.
pub open spec fn place_section(
    chunks: Seq<ChunkView>,
    source: Seq<char>,
    path: Seq<Seq<char>>,
    body: Seq<char>,
) -> Seq<ChunkView> {
    let hp = join(path, crumb_sep());
    if utf8_len(body) < MIN_CHUNK_CHARS && chunks.len() > 0 {
        let prev = chunks.last();
        chunks.drop_last().push(
            ChunkView {
                source: prev.source,
                heading_path: prev.heading_path,
                text: prev.text + para_sep() + heading_note(hp) + body,
            },
        )
    } else {
        chunks + made_chunks(source, hp, split_long_spec(body))
    }
}

/// The chunks of a sequence of sections.
pub open spec fn assemble(source: Seq<char>, secs: Seq<(Seq<Seq<char>>, Seq<char>)>) -> Seq<
    ChunkView,
>
    decreases secs.len(),
{
    if secs.len() == 0 {
        Seq::empty()
    } else {
        place_section(assemble(source, secs.drop_last()), source, secs.last().0, secs.last().1)
    }
}

/// The chunks of a markdown document.
pub open spec fn markdown_chunks(source: Seq<char>, content: Seq<char>) -> Seq<ChunkView> {
    assemble(source, sections_of(content))
}

/// The non-empty pieces of `parts`, in order.
pub open spec fn non_empty(parts: Seq<Seq<char>>) -> Seq<Seq<char>>
    decreases parts.len(),
{
    if parts.len() == 0 {
        Seq::empty()
    } else if parts.last().len() > 0 {
        non_empty(parts.drop_last()).push(parts.last())
    } else {
        non_empty(parts.drop_last())
    }
}

/// The chunks of a plain-text document.
pub open spec fn plaintext_chunks(source: Seq<char>, content: Seq<char>) -> Seq<ChunkView> {
    made_chunks(source, Seq::empty(), non_empty(split_long_spec(trim(content))))
}

/// A copy of `v`.
fn copy_chars(v: &Vec<char>) -> (r: Vec<char>)
    ensures
        r@ == v@,
{
    let mut r: Vec<char> = Vec::new();
    push_all(&mut r, v);
    assert(r@ =~= v@);
    r
}

fn make_chunk(source: &Vec<char>, heading_path: &Vec<char>, body: &Vec<char>) -> (c: Chunk)
    ensures
        c@ == make_chunk_spec(source@, heading_path@, body@),
{
    let mut text: Vec<char> = Vec::new();
    text.push('[');
    push_all(&mut text, source);
    if heading_path.len() > 0 {
        text.push(' ');
        text.push('>');
        text.push(' ');
        push_all(&mut text, heading_path);
    }
    text.push(']');
    text.push('\n');
    push_all(&mut text, body);
    assert(text@ =~= chunk_header(source@, heading_path@) + body@);
    Chunk {
        source: string_of(source),
        heading_path: string_of(heading_path),
        text: string_of(&text),
    }
}

fn split_long(body: &Vec<char>) -> (parts: Vec<Vec<char>>)
    ensures
        views(parts@) == split_long_spec(body@),
{
    if utf8_len_capped(body) <= MAX_CHUNK_CHARS {
        let mut parts: Vec<Vec<char>> = Vec::new();
        parts.push(copy_chars(body));
        assert(views(parts@) =~= seq![body@]);
        return parts;
    }
    let sep: Vec<char> = vec!['\n', '\n'];
    assert(sep@ =~= para_sep());
    let paras = split_exec(body, &sep);
    let mut parts: Vec<Vec<char>> = Vec::new();
    let mut current: Vec<char> = Vec::new();
    let mut i: usize = 0;
    while i < paras.len()
        invariant
            i <= paras@.len(),
            views(paras@) == split(body@, para_sep()),
            views(parts@) == pack(views(paras@).take(i as int)).parts,
            current@ == pack(views(paras@).take(i as int)).current,
        decreases paras@.len() - i,
    {
        let ghost before = pack(views(paras@).take(i as int));
        let para = &paras[i];
        if current.len() > 0 {
            let cl = utf8_len_capped(&current);
            let pl = utf8_len_capped(para);
            if cl.saturating_add(pl) > MAX_CHUNK_CHARS {
                let ghost old_parts = parts@;
                parts.push(current);
                current = Vec::new();
                assert(views(parts@) =~= views(old_parts).push(before.current));
            }
        }
        if current.len() > 0 {
            current.push('\n');
            current.push('\n');
        }
        push_all(&mut current, para);
        i = i + 1;
        proof {
            assert(views(paras@).take(i as int).drop_last() =~= views(paras@).take(i - 1));
            let after = pack_step(before, para@);
            assert(views(parts@) =~= after.parts);
            assert(current@ =~= after.current);
        }
    }
    assert(views(paras@).take(i as int) =~= views(paras@));
    if current.len() > 0 {
        let ghost old_parts = parts@;
        parts.push(current);
        assert(views(parts@) =~= views(old_parts).push(pack(views(paras@)).current));
    }
    parts
}


/// The views of sections held as vectors.
pub open spec fn section_views(s: Seq<(Vec<Vec<char>>, Vec<char>)>) -> Seq<(Seq<Seq<char>>, Seq<char>)> {
    s.map_values(|e: (Vec<Vec<char>>, Vec<char>)| (views(e.0@), e.1@))
}

/// The views of a heading stack held as vectors.
pub open spec fn stack_view(s: Seq<(usize, Vec<char>)>) -> Seq<(usize, Seq<char>)> {
    s.map_values(|e: (usize, Vec<char>)| (e.0, e.1@))
}

fn titles_exec(stack: &Vec<(usize, Vec<char>)>) -> (r: Vec<Vec<char>>)
    ensures
        views(r@) == titles(stack_view(stack@)),
{
    let mut r: Vec<Vec<char>> = Vec::new();
    let mut i: usize = 0;
    while i < stack.len()
        invariant
            i <= stack@.len(),
            views(r@) == titles(stack_view(stack@)).take(i as int),
        decreases stack@.len() - i,
    {
        let ghost old_r = r@;
        let c = copy_chars(&stack[i].1);
        assert(c@ == titles(stack_view(stack@))[i as int]);
        r.push(c);
        assert(views(r@) =~= views(old_r).push(c@));
        i = i + 1;
        assert(views(r@) =~= titles(stack_view(stack@)).take(i as int));
    }
    assert(titles(stack_view(stack@)).take(i as int) =~= titles(stack_view(stack@)));
    r
}

fn retain_below_exec(stack: &Vec<(usize, Vec<char>)>, level: usize) -> (r: Vec<(usize, Vec<char>)>)
    ensures
        stack_view(r@) == retain_below(stack_view(stack@), level),
{
    let mut r: Vec<(usize, Vec<char>)> = Vec::new();
    let mut i: usize = 0;
    while i < stack.len()
        invariant
            i <= stack@.len(),
            stack_view(r@) == retain_below(stack_view(stack@).take(i as int), level),
        decreases stack@.len() - i,
    {
        let ghost old_r = r@;
        let ghost prefix = stack_view(stack@).take(i + 1);
        assert(prefix.drop_last() =~= stack_view(stack@).take(i as int));
        if stack[i].0 < level {
            r.push((stack[i].0, copy_chars(&stack[i].1)));
            assert(stack_view(r@) =~= stack_view(old_r).push(prefix.last()));
        }
        i = i + 1;
    }
    assert(stack_view(stack@).take(i as int) =~= stack_view(stack@));
    r
}

fn flush_exec(
    sections: &mut Vec<(Vec<Vec<char>>, Vec<char>)>,
    stack: &Vec<(usize, Vec<char>)>,
    current: &mut Vec<char>,
    in_fence: bool,
)
    ensures
        section_views(final(sections)@) == flush(
            Outline {
                sections: section_views(old(sections)@),
                stack: stack_view(stack@),
                current: old(current)@,
                in_fence: in_fence,
            },
        ).sections,
        final(current)@ == Seq::<char>::empty(),
{
    let body = trim_exec(current);
    if body.len() > 0 {
        let path = titles_exec(stack);
        let ghost old_s = sections@;
        sections.push((path, body));
        assert(section_views(sections@) =~= section_views(old_s).push(
            (titles(stack_view(stack@)), trim(old(current)@)),
        ));
    }
    *current = Vec::new();
}

fn hash_run_exec(t: &Vec<char>) -> (n: usize)
    ensures
        n == hash_run(t@),
{
    let mut k: usize = 0;
    assert(t@.subrange(0, t@.len() as int) =~= t@);
    while k < t.len() && t[k] == '#'
        invariant
            k <= t@.len(),
            hash_run(t@) == k + hash_run(t@.subrange(k as int, t@.len() as int)),
        decreases t@.len() - k,
    {
        assert(t@.subrange(k as int, t@.len() as int).drop_first() =~= t@.subrange(
            k + 1,
            t@.len() as int,
        ));
        k = k + 1;
    }
    k
}

fn heading_level_exec(t: &Vec<char>) -> (r: Option<usize>)
    ensures
        r == heading_level(t@),
{
    if t.len() > 0 && t[0] == '#' {
        let l = hash_run_exec(t);
        if 1 <= l && l <= 3 && l < t.len() && t[l] == ' ' {
            return Some(l);
        }
    }
    None
}

fn sections_exec(content: &Vec<char>) -> (r: Vec<(Vec<Vec<char>>, Vec<char>)>)
    ensures
        section_views(r@) == sections_of(content@),
{
    let ls = lines_of(content);
    let fence_a: Vec<char> = vec!['`', '`', '`'];
    let fence_b: Vec<char> = vec!['~', '~', '~'];
    assert(fence_a@ =~= seq!['`', '`', '`']);
    assert(fence_b@ =~= seq!['~', '~', '~']);
    let mut sections: Vec<(Vec<Vec<char>>, Vec<char>)> = Vec::new();
    let mut stack: Vec<(usize, Vec<char>)> = Vec::new();
    let mut current: Vec<char> = Vec::new();
    let mut in_fence = false;
    let mut i: usize = 0;
    proof {
        assert(section_views(sections@) =~= Seq::empty());
        assert(stack_view(stack@) =~= Seq::empty());
        assert(views(ls@).take(0) =~= Seq::empty());
    }
    while i < ls.len()
        invariant
            i <= ls@.len(),
            views(ls@) == lines(content@),
            fence_a@ == seq!['`', '`', '`'],
            fence_b@ == seq!['~', '~', '~'],
            section_views(sections@) == outline_of(views(ls@).take(i as int)).sections,
            stack_view(stack@) == outline_of(views(ls@).take(i as int)).stack,
            current@ == outline_of(views(ls@).take(i as int)).current,
            in_fence == outline_of(views(ls@).take(i as int)).in_fence,
        decreases ls@.len() - i,
    {
        let ghost before = outline_of(views(ls@).take(i as int));
        let line = &ls[i];
        let t = trim_start_exec(line);
        if starts_with_exec(&t, &fence_a) || starts_with_exec(&t, &fence_b) {
            in_fence = !in_fence;
            push_all(&mut current, line);
            current.push('\n');
        } else {
            let level = if in_fence {
                None
            } else {
                heading_level_exec(&t)
            };
            match level {
                Some(l) => {
                    flush_exec(&mut sections, &stack, &mut current, in_fence);
                    let rest = subvec(&t, l, t.len());
                    let title = trim_exec(&rest);
                    let mut kept = retain_below_exec(&stack, l);
                    let ghost old_kept = kept@;
                    kept.push((l, title));
                    assert(stack_view(kept@) =~= stack_view(old_kept).push((l, title@)));
                    stack = kept;
                },
                None => {
                    push_all(&mut current, line);
                    current.push('\n');
                },
            }
        }
        i = i + 1;
        proof {
            assert(views(ls@).take(i as int).drop_last() =~= views(ls@).take(i - 1));
            let after = outline_step(before, line@);
            assert(section_views(sections@) =~= after.sections);
            assert(stack_view(stack@) =~= after.stack);
            assert(current@ =~= after.current);
        }
    }
    assert(views(ls@).take(i as int) =~= views(ls@));
    flush_exec(&mut sections, &stack, &mut current, in_fence);
    sections
}

/// Split a markdown document into heading-aware chunks (h1-h3 boundaries).
/// Heading markers inside fenced code blocks are ignored. Sections shorter
/// than MIN_CHUNK_CHARS merge into the previous chunk; longer than
/// MAX_CHUNK_CHARS split at paragraph boundaries.
pub fn chunk_markdown(source: &str, content: &str) -> (chunks: Vec<Chunk>)
    ensures
        chunk_views(chunks@) == markdown_chunks(source@, content@),
{
    let src = chars_of(source);
    let text = chars_of(content);
    let secs = sections_exec(&text);
    let sep: Vec<char> = vec![' ', '>', ' '];
    assert(sep@ =~= crumb_sep());
    let mut chunks: Vec<Chunk> = Vec::new();
    let mut i: usize = 0;
    assert(chunk_views(chunks@) =~= Seq::empty());
    while i < secs.len()
        invariant
            i <= secs@.len(),
            src@ == source@,
            sep@ == crumb_sep(),
            section_views(secs@) == sections_of(content@),
            chunk_views(chunks@) == assemble(source@, section_views(secs@).take(i as int)),
        decreases secs@.len() - i,
    {
        let ghost before = chunk_views(chunks@);
        let ghost sec = section_views(secs@)[i as int];
        let hp = join_exec(&secs[i].0, &sep);
        let body = &secs[i].1;
        assert(sec.1 == body@);
        assert(sec.0 == views(secs@[i as int].0@));
        if utf8_len_capped(body) < MIN_CHUNK_CHARS && chunks.len() > 0 {
            let prev = chunks.pop().unwrap();
            let ghost pv = before.last();
            assert(prev@ == pv);
            let mut t = chars_of(prev.text.as_str());
            t.push('\n');
            t.push('\n');
            if hp.len() > 0 {
                t.push('#');
                t.push('#');
                t.push(' ');
                push_all(&mut t, &hp);
                t.push('\n');
            }
            push_all(&mut t, body);
            assert(t@ =~= pv.text + para_sep() + heading_note(hp@) + body@);
            let merged = Chunk { source: prev.source, heading_path: prev.heading_path, text: string_of(&t) };
            let ghost popped = chunks@;
            chunks.push(merged);
            assert(chunk_views(popped) =~= before.drop_last());
            assert(chunk_views(chunks@) =~= chunk_views(popped).push(merged@));
        } else {
            let parts = split_long(body);
            let ghost mapped = made_chunks(source@, hp@, views(parts@));
            let mut j: usize = 0;
            while j < parts.len()
                invariant
                    j <= parts@.len(),
                    src@ == source@,
                    mapped == made_chunks(source@, hp@, views(parts@)),
                    chunk_views(chunks@) == before + mapped.take(j as int),
                decreases parts@.len() - j,
            {
                let c = make_chunk(&src, &hp, &parts[j]);
                assert(c@ == mapped[j as int]);
                let ghost old_c = chunks@;
                chunks.push(c);
                assert(chunk_views(chunks@) =~= chunk_views(old_c).push(c@));
                j = j + 1;
                assert(chunk_views(chunks@) =~= before + mapped.take(j as int));
            }
            assert(mapped.take(j as int) =~= mapped);
        }
        i = i + 1;
        assert(section_views(secs@).take(i as int).drop_last() =~= section_views(secs@).take(
            i - 1,
        ));
    }
    assert(section_views(secs@).take(i as int) =~= section_views(secs@));
    chunks
}

/// Whole-file chunking for plain-text files.
pub fn chunk_plaintext(source: &str, content: &str) -> (chunks: Vec<Chunk>)
    ensures
        chunk_views(chunks@) == plaintext_chunks(source@, content@),
{
    let src = chars_of(source);
    let text = chars_of(content);
    let body = trim_exec(&text);
    let parts = split_long(&body);
    let empty: Vec<char> = Vec::new();
    let mut chunks: Vec<Chunk> = Vec::new();
    let mut j: usize = 0;
    assert(chunk_views(chunks@) =~= Seq::empty());
    while j < parts.len()
        invariant
            j <= parts@.len(),
            src@ == source@,
            empty@ == Seq::<char>::empty(),
            chunk_views(chunks@) == made_chunks(source@, Seq::empty(), non_empty(views(parts@).take(j as int))),
        decreases parts@.len() - j,
    {
        let ghost old_c = chunks@;
        assert(views(parts@).take(j + 1).drop_last() =~= views(parts@).take(j as int));
        if parts[j].len() > 0 {
            let c = make_chunk(&src, &empty, &parts[j]);
            chunks.push(c);
            assert(chunk_views(chunks@) =~= chunk_views(old_c).push(c@));
        }
        j = j + 1;
        assert(chunk_views(chunks@) =~= made_chunks(source@, Seq::empty(), non_empty(views(parts@).take(j as int))));
    }
    assert(views(parts@).take(j as int) =~= views(parts@));
    chunks
}

/// Every chunk names `source` and its text starts with the header that
/// cites it.
pub open spec fn cites_source(chunks: Seq<ChunkView>, source: Seq<char>) -> bool {
    forall|i: int|
        0 <= i < chunks.len() ==> (#[trigger] chunks[i]).source == source && starts_with(
            chunks[i].text,
            chunk_header(source, chunks[i].heading_path),
        )
}

proof fn lemma_starts_with_extend(a: Seq<char>, b: Seq<char>, p: Seq<char>)
    requires
        starts_with(a, p),
    ensures
        starts_with(a + b, p),
{
    assert((a + b).subrange(0, p.len() as int) =~= a.subrange(0, p.len() as int));
}

proof fn lemma_made_chunks_cite(source: Seq<char>, hp: Seq<char>, parts: Seq<Seq<char>>)
    ensures
        cites_source(made_chunks(source, hp, parts), source),
{
    assert forall|i: int|
        0 <= i < parts.len() implies #[trigger] made_chunks(source, hp, parts)[i].source == source && starts_with(
        made_chunks(source, hp, parts)[i].text,
        chunk_header(source, hp),
    ) by {
        let h = chunk_header(source, hp);
        assert((h + parts[i]).subrange(0, h.len() as int) =~= h);
    }
}

proof fn lemma_assemble_cites(source: Seq<char>, secs: Seq<(Seq<Seq<char>>, Seq<char>)>)
    ensures
        cites_source(assemble(source, secs), source),
    decreases secs.len(),
{
    if secs.len() > 0 {
        let prev = assemble(source, secs.drop_last());
        lemma_assemble_cites(source, secs.drop_last());
        let path = secs.last().0;
        let body = secs.last().1;
        let hp = join(path, crumb_sep());
        let out = assemble(source, secs);
        if utf8_len(body) < MIN_CHUNK_CHARS && prev.len() > 0 {
            let last = prev.last();
            assert(prev[prev.len() - 1] == last);
            lemma_starts_with_extend(
                last.text,
                para_sep() + heading_note(hp) + body,
                chunk_header(source, last.heading_path),
            );
            assert(last.text + para_sep() + heading_note(hp) + body =~= last.text + (para_sep()
                + heading_note(hp) + body));
            assert forall|i: int| 0 <= i < out.len() implies (#[trigger] out[i]).source == source
                && starts_with(out[i].text, chunk_header(source, out[i].heading_path)) by {
                if i < prev.len() - 1 {
                    assert(out[i] == prev[i]);
                }
            }
        } else {
            let made = made_chunks(source, hp, split_long_spec(body));
            lemma_made_chunks_cite(source, hp, split_long_spec(body));
            assert forall|i: int| 0 <= i < out.len() implies (#[trigger] out[i]).source == source
                && starts_with(out[i].text, chunk_header(source, out[i].heading_path)) by {
                if i < prev.len() {
                    assert(out[i] == prev[i]);
                } else {
                    assert(out[i] == made[i - prev.len()]);
                }
            }
        }
    }
}

/// Every chunk of a markdown document names the document as its source,
/// and its text opens with `[source]` or `[source > heading path]`, so the
/// model can cite it.
pub proof fn law_markdown_chunks_cite_source(source: Seq<char>, content: Seq<char>)
    ensures
        cites_source(markdown_chunks(source, content), source),
{
    lemma_assemble_cites(source, sections_of(content));
}

proof fn lemma_non_empty_parts(parts: Seq<Seq<char>>)
    ensures
        forall|i: int| 0 <= i < non_empty(parts).len() ==> (#[trigger] non_empty(parts)[i]).len()
            > 0,
    decreases parts.len(),
{
    if parts.len() > 0 {
        lemma_non_empty_parts(parts.drop_last());
        let r = non_empty(parts.drop_last());
        if parts.last().len() > 0 {
            assert forall|i: int| 0 <= i < non_empty(parts).len() implies (
            #[trigger] non_empty(parts)[i]).len() > 0 by {
                if i < r.len() {
                    assert(non_empty(parts)[i] == r[i]);
                }
            }
        }
    }
}

/// Every chunk of a plain-text document names the document as its source,
/// opens with `[source]`, and has a non-empty body.
pub proof fn law_plaintext_chunks_cite_source(source: Seq<char>, content: Seq<char>)
    ensures
        cites_source(plaintext_chunks(source, content), source),
        forall|i: int|
            0 <= i < plaintext_chunks(source, content).len() ==> (#[trigger] plaintext_chunks(
                source,
                content,
            )[i]).text.len() > chunk_header(source, Seq::empty()).len(),
{
    let parts = non_empty(split_long_spec(trim(content)));
    lemma_made_chunks_cite(source, Seq::empty(), parts);
    lemma_non_empty_parts(split_long_spec(trim(content)));
    assert forall|i: int| 0 <= i < plaintext_chunks(source, content).len() implies (
    #[trigger] plaintext_chunks(source, content)[i]).text.len() > chunk_header(
        source,
        Seq::empty(),
    ).len() by {
        assert(parts[i].len() > 0);
    }
}

/// No paragraph of `paras` is empty.
pub open spec fn no_empty_paragraph(paras: Seq<Seq<char>>) -> bool {
    forall|i: int| 0 <= i < paras.len() ==> (#[trigger] paras[i]).len() > 0
}

proof fn lemma_pack_joins(paras: Seq<Seq<char>>)
    requires
        no_empty_paragraph(paras),
        paras.len() > 0,
    ensures
        pack(paras).current.len() > 0,
        join(pack(paras).parts.push(pack(paras).current), para_sep()) == join(paras, para_sep()),
    decreases paras.len(),
{
    let p = paras.last();
    assert(p == paras[paras.len() - 1]);
    let prev = pack(paras.drop_last());
    if paras.len() == 1 {
        assert(prev.parts =~= Seq::<Seq<char>>::empty());
        assert(pack(paras).current =~= p);
        crate::text::lemma_join_push(Seq::empty(), p, para_sep());
        assert(paras =~= Seq::<Seq<char>>::empty().push(p));
    } else {
        assert forall|i: int| 0 <= i < paras.drop_last().len() implies (
        #[trigger] paras.drop_last()[i]).len() > 0 by {
            assert(paras.drop_last()[i] == paras[i]);
        }
        lemma_pack_joins(paras.drop_last());
        assert(paras =~= paras.drop_last().push(p));
        crate::text::lemma_join_push(paras.drop_last(), p, para_sep());
        let full = utf8_len(prev.current) + utf8_len(p) > MAX_CHUNK_CHARS;
        if full {
            crate::text::lemma_join_push(prev.parts.push(prev.current), p, para_sep());
        } else {
            crate::text::lemma_join_push(prev.parts, prev.current + para_sep() + p, para_sep());
            crate::text::lemma_join_push(prev.parts, prev.current, para_sep());
            if prev.parts.len() > 0 {
                assert(join(prev.parts, para_sep()) + para_sep() + (prev.current + para_sep() + p)
                    =~= join(prev.parts, para_sep()) + para_sep() + prev.current + para_sep() + p);
            }
        }
    }
}

/// Splitting a long section loses and reorders nothing: where no paragraph
/// is empty, the parts joined with `"\n\n"` give back the section.
pub proof fn law_split_long_keeps_text(body: Seq<char>)
    requires
        no_empty_paragraph(split(body, para_sep())),
    ensures
        join(split_long_spec(body), para_sep()) == body,
{
    crate::text::lemma_join_split(body, para_sep());
    if utf8_len(body) > MAX_CHUNK_CHARS {
        lemma_pack_joins(split(body, para_sep()));
    }
}

/// A part is within the size limit (plus one paragraph separator) or is
/// a single paragraph of `paras`.
pub open spec fn part_fits(part: Seq<char>, paras: Seq<Seq<char>>) -> bool {
    utf8_len(part) <= MAX_CHUNK_CHARS + 2 || paras.contains(part)
}

proof fn lemma_pack_fits(paras: Seq<Seq<char>>, all: Seq<Seq<char>>)
    requires
        forall|i: int| 0 <= i < paras.len() ==> all.contains(#[trigger] paras[i]),
    ensures
        forall|i: int| 0 <= i < pack(paras).parts.len() ==> part_fits(#[trigger] pack(paras).parts[i], all),
        pack(paras).current.len() == 0 || part_fits(pack(paras).current, all),
    decreases paras.len(),
{
    if paras.len() > 0 {
        let p = paras.last();
        assert(all.contains(paras[paras.len() - 1]));
        assert forall|i: int| 0 <= i < paras.drop_last().len() implies all.contains(
            #[trigger] paras.drop_last()[i],
        ) by {
            assert(paras.drop_last()[i] == paras[i]);
        }
        lemma_pack_fits(paras.drop_last(), all);
        let prev = pack(paras.drop_last());
        let full = prev.current.len() > 0 && utf8_len(prev.current) + utf8_len(p) > MAX_CHUNK_CHARS;
        if !full && prev.current.len() > 0 {
            crate::text::lemma_utf8_len_concat(prev.current, para_sep());
            crate::text::lemma_utf8_len_concat(prev.current + para_sep(), p);
            assert(utf8_len(para_sep()) == 2) by {
                assert(para_sep().drop_last() =~= seq!['\n']);
                assert(seq!['\n'].drop_last() =~= Seq::<char>::empty());
                assert(('\n' as u32) == 10);
                assert(crate::text::utf8_width('\n') == 1);
                assert(utf8_len(Seq::<char>::empty()) == 0);
                assert(seq!['\n'].last() == '\n');
                assert(utf8_len(seq!['\n']) == 1);
            }
        }
        if prev.current.len() == 0 {
            assert(pack(paras).current =~= p);
        }
    }
}

/// Each part of a split section is at most the maximum size plus one
/// `"\n\n"`, unless it is a single paragraph that is longer on its own.
pub proof fn law_split_long_part_size(body: Seq<char>)
    ensures
        forall|i: int| 0 <= i < split_long_spec(body).len() ==> part_fits(
            #[trigger] split_long_spec(body)[i],
            split(body, para_sep()),
        ),
{
    let paras = split(body, para_sep());
    if utf8_len(body) > MAX_CHUNK_CHARS {
        assert forall|i: int| 0 <= i < paras.len() implies paras.contains(#[trigger] paras[i]) by {}
        lemma_pack_fits(paras, paras);
        let st = pack(paras);
        if st.current.len() > 0 {
            assert forall|i: int| 0 <= i < split_long_spec(body).len() implies part_fits(
                #[trigger] split_long_spec(body)[i],
                paras,
            ) by {
                if i < st.parts.len() {
                    assert(split_long_spec(body)[i] == st.parts[i]);
                }
            }
        }
    }
}

proof fn lemma_pack_parts_non_empty(paras: Seq<Seq<char>>)
    ensures
        forall|i: int| 0 <= i < pack(paras).parts.len() ==> (#[trigger] pack(paras).parts[i]).len()
            > 0,
    decreases paras.len(),
{
    if paras.len() > 0 {
        lemma_pack_parts_non_empty(paras.drop_last());
        let prev = pack(paras.drop_last());
        let now = pack(paras);
        assert forall|i: int| 0 <= i < now.parts.len() implies (#[trigger] now.parts[i]).len()
            > 0 by {
            if i < prev.parts.len() {
                assert(now.parts[i] == prev.parts[i]);
            }
        }
    }
}

/// A section within the size limit is one part, the section itself; and
/// no part of a non-empty section is empty.
pub proof fn law_split_long_parts(body: Seq<char>)
    ensures
        utf8_len(body) <= MAX_CHUNK_CHARS ==> split_long_spec(body) == seq![body],
        body.len() > 0 ==> forall|i: int|
            0 <= i < split_long_spec(body).len() ==> (#[trigger] split_long_spec(body)[i]).len()
                > 0,
{
    if utf8_len(body) > MAX_CHUNK_CHARS {
        let st = pack(split(body, para_sep()));
        lemma_pack_parts_non_empty(split(body, para_sep()));
        assert forall|i: int| 0 <= i < split_long_spec(body).len() implies (
        #[trigger] split_long_spec(body)[i]).len() > 0 by {
            if i < st.parts.len() {
                assert(split_long_spec(body)[i] == st.parts[i]);
            }
        }
    }
}

proof fn lemma_non_empty_keeps_all(parts: Seq<Seq<char>>)
    requires
        forall|i: int| 0 <= i < parts.len() ==> (#[trigger] parts[i]).len() > 0,
    ensures
        non_empty(parts) == parts,
    decreases parts.len(),
{
    if parts.len() > 0 {
        assert(parts[parts.len() - 1] == parts.last());
        assert forall|i: int| 0 <= i < parts.drop_last().len() implies (
        #[trigger] parts.drop_last()[i]).len() > 0 by {
            assert(parts.drop_last()[i] == parts[i]);
        }
        lemma_non_empty_keeps_all(parts.drop_last());
        assert(parts.drop_last().push(parts.last()) =~= parts);
    }
}

/// The bodies of chunks, each without its first `header_len` characters.
pub open spec fn chunk_bodies(chunks: Seq<ChunkView>, header_len: nat) -> Seq<Seq<char>> {
    chunks.map_values(|c: ChunkView| c.text.subrange(header_len as int, c.text.len() as int))
}

/// Plain-text chunking loses and reorders nothing: where no paragraph of
/// the trimmed text is empty, every chunk is `[source]` and a body, and
/// the bodies joined with `"\n\n"` give back the trimmed text.
pub proof fn law_plaintext_bodies_rejoin(source: Seq<char>, content: Seq<char>)
    requires
        no_empty_paragraph(split(trim(content), para_sep())),
    ensures
        ({
            let cs = plaintext_chunks(source, content);
            let h = chunk_header(source, Seq::empty());
            &&& forall|i: int|
                0 <= i < cs.len() ==> (#[trigger] cs[i]).source == source && cs[i].heading_path
                    == Seq::<char>::empty() && starts_with(cs[i].text, h)
            &&& join(chunk_bodies(cs, h.len()), para_sep()) == trim(content)
        }),
{
    let body = trim(content);
    let h = chunk_header(source, Seq::empty());
    crate::text::lemma_join_split(body, para_sep());
    if body.len() == 0 {
        assert(split(body, para_sep())[0].len() == 0) by {
            crate::text::lemma_find_from(body, para_sep(), 0);
        }
    }
    law_split_long_parts(body);
    law_split_long_keeps_text(body);
    let parts = split_long_spec(body);
    lemma_non_empty_keeps_all(parts);
    let cs = plaintext_chunks(source, content);
    assert forall|i: int| 0 <= i < cs.len() implies (#[trigger] cs[i]).source == source
        && cs[i].heading_path == Seq::<char>::empty() && starts_with(cs[i].text, h) by {
        assert((h + parts[i]).subrange(0, h.len() as int) =~= h);
    }
    assert(chunk_bodies(cs, h.len()) =~= parts) by {
        assert forall|i: int| 0 <= i < parts.len() implies chunk_bodies(cs, h.len())[i]
            == parts[i] by {
            assert((h + parts[i]).subrange(h.len() as int, (h + parts[i]).len() as int)
                =~= parts[i]);
        }
    }
}

/// Inside a code fence a line never starts a section, even one that looks
/// like a heading: it is part of the section's body.
pub proof fn law_fenced_lines_are_body(o: Outline, line: Seq<char>)
    requires
        o.in_fence,
        !is_fence(trim_start(line)),
    ensures
        outline_step(o, line) == (Outline { current: o.current + line + seq!['\n'], ..o }),
{
}

/// Outside a fence, a line of one to three `#` and a space starts a new
/// section under the open headings of a lower level.
pub proof fn law_heading_starts_section(o: Outline, line: Seq<char>)
    requires
        !o.in_fence,
        !is_fence(trim_start(line)),
        heading_level(trim_start(line)) is Some,
    ensures
        ({
            let t = trim_start(line);
            let l = heading_level(t)->0;
            &&& outline_step(o, line).current == Seq::<char>::empty()
            &&& outline_step(o, line).stack == retain_below(o.stack, l).push(
                (l, trim(t.subrange(l as int, t.len() as int))),
            )
            &&& outline_step(o, line).sections == flush(o).sections
        }),
{
}

/// `l` hash signs.
pub open spec fn hashes(l: nat) -> Seq<char> {
    Seq::new(l, |i: int| '#')
}

proof fn lemma_hash_run_of(l: nat, c: char, rest: Seq<char>)
    requires
        c != '#',
    ensures
        hash_run(hashes(l) + seq![c] + rest) == l,
    decreases l,
{
    let t = hashes(l) + seq![c] + rest;
    if l > 0 {
        assert(t[0] == '#');
        assert(t.drop_first() =~= hashes((l - 1) as nat) + seq![c] + rest);
        lemma_hash_run_of((l - 1) as nat, c, rest);
    } else {
        assert(t[0] == c);
    }
}

/// A line of one, two or three `#` followed by a space is a heading of
/// that level (h1 to h3), whatever follows; four or more `#`, or `#` not
/// followed by a space, make none.
pub proof fn law_heading_levels(l: nat, title: Seq<char>, c: char)
    ensures
        1 <= l <= 3 ==> heading_level(hashes(l) + seq![' '] + title) == Some(l as usize),
        l > 3 ==> heading_level(hashes(l) + seq![' '] + title) is None,
        l == 0 ==> heading_level(hashes(l) + seq![' '] + title) is None,
        c != ' ' && c != '#' ==> heading_level(hashes(l) + seq![c] + title) is None,
{
    if c != ' ' && c != '#' {
        let u = hashes(l) + seq![c] + title;
        lemma_hash_run_of(l, c, title);
        assert(u[l as int] == c);
    }
    let t = hashes(l) + seq![' '] + title;
    lemma_hash_run_of(l, ' ', title);
    if l > 0 {
        assert(t[0] == '#');
    } else {
        assert(t[0] == ' ');
    }
    assert(t[l as int] == ' ');
}

/// Outside a code fence, a line `#`, `##` or `###`, a space and a title
/// closes the section being read and opens a new one: the open headings
/// become those of a lower level, then this title, so the heading path of
/// what follows ends with the title (`# A` then `### B` gives `A > B`).
pub proof fn law_heading_line_opens_section(o: Outline, l: nat, title: Seq<char>)
    requires
        !o.in_fence,
        1 <= l <= 3,
    ensures
        ({
            let after = outline_step(o, hashes(l) + seq![' '] + title);
            &&& after.current == Seq::<char>::empty()
            &&& after.sections == flush(o).sections
            &&& after.stack.len() > 0
            &&& after.stack.last() == (l as usize, trim(title))
            &&& titles(after.stack) == titles(retain_below(o.stack, l as usize)).push(trim(title))
            &&& forall|k: int| 0 <= k < after.stack.len() - 1 ==> (#[trigger] after.stack[k]).0 < l
        }),
{
    let line = hashes(l) + seq![' '] + title;
    law_heading_levels(l, title, ' ');
    assert(line[0] == '#');
    assert(trim_start(line) == line);
    assert(!is_fence(line)) by {
        if starts_with(line, seq!['`', '`', '`']) {
            assert(line.subrange(0, 3)[0] == '`');
        }
        if starts_with(line, seq!['~', '~', '~']) {
            assert(line.subrange(0, 3)[0] == '~');
        }
    }
    assert(line.subrange(l as int, line.len() as int) =~= seq![' '] + title);
    assert(trim_start(seq![' '] + title) == trim_start(title)) by {
        assert((seq![' '] + title).drop_first() =~= title);
        assert(crate::text::is_space(' '));
    }
    let r = retain_below(o.stack, l as usize);
    lemma_retain_below(o.stack, l as usize);
    let after = outline_step(o, line);
    assert(after.stack == r.push((l as usize, trim(title))));
    assert(titles(after.stack) =~= titles(r).push(trim(title)));
    assert forall|k: int| 0 <= k < after.stack.len() - 1 implies (#[trigger] after.stack[k]).0 < l by {
        assert(after.stack[k] == r[k]);
    }
}

proof fn lemma_retain_below(stack: Seq<(usize, Seq<char>)>, level: usize)
    ensures
        forall|k: int| 0 <= k < retain_below(stack, level).len() ==> (#[trigger] retain_below(stack, level)[k]).0 < level,
    decreases stack.len(),
{
    if stack.len() > 0 {
        lemma_retain_below(stack.drop_last(), level);
        let r = retain_below(stack.drop_last(), level);
        assert forall|k: int| 0 <= k < retain_below(stack, level).len() implies (#[trigger] retain_below(stack, level)[k]).0 < level by {
            if k < r.len() {
                assert(retain_below(stack, level)[k] == r[k]);
            }
        }
    }
}

/// A section of headings `path` becomes one chunk of its own when its body
/// is within the size limit and not short (or is the first one): the
/// chunk's heading path is the titles joined with `" > "`, and its text
/// is `[source > heading path]` (`[source]` without headings), a line
/// break, and the body. A short section after a chunk is appended to that
/// chunk instead, after a blank line and `## heading path` where it has
/// one.
pub proof fn law_section_placement(chunks: Seq<ChunkView>, source: Seq<char>, path: Seq<Seq<char>>, body: Seq<char>)
    ensures
        ({
            let hp = join(path, " > "@);
            let header = if hp.len() > 0 {
                "["@ + source + " > "@ + hp + "]\n"@
            } else {
                "["@ + source + "]\n"@
            };
            let placed = place_section(chunks, source, path, body);
            &&& (utf8_len(body) <= MAX_CHUNK_CHARS && (utf8_len(body) >= MIN_CHUNK_CHARS || chunks.len() == 0))
                ==> placed == chunks.push(ChunkView { source: source, heading_path: hp, text: header + body })
            &&& (utf8_len(body) < MIN_CHUNK_CHARS && chunks.len() > 0) ==> placed == chunks.drop_last().push(
                ChunkView {
                    source: chunks.last().source,
                    heading_path: chunks.last().heading_path,
                    text: chunks.last().text + "\n\n"@ + if hp.len() > 0 {
                        "## "@ + hp + "\n"@
                    } else {
                        Seq::empty()
                    } + body,
                },
            )
        }),
{
    reveal_strlit(" > ");
    reveal_strlit("[");
    reveal_strlit("]\n");
    reveal_strlit("\n\n");
    reveal_strlit("## ");
    reveal_strlit("\n");
    assert(" > "@ =~= crumb_sep());
    let hp = join(path, crumb_sep());
    if utf8_len(body) <= MAX_CHUNK_CHARS && (utf8_len(body) >= MIN_CHUNK_CHARS || chunks.len() == 0) {
        let header = if hp.len() > 0 {
            "["@ + source + " > "@ + hp + "]\n"@
        } else {
            "["@ + source + "]\n"@
        };
        assert(chunk_header(source, hp) =~= header);
        assert(made_chunks(source, hp, seq![body]) =~= seq![make_chunk_spec(source, hp, body)]);
        assert(place_section(chunks, source, path, body) =~= chunks.push(
            ChunkView { source: source, heading_path: hp, text: header + body },
        ));
    }
    if utf8_len(body) < MIN_CHUNK_CHARS && chunks.len() > 0 {
        assert(para_sep() =~= "\n\n"@);
        if hp.len() > 0 {
            assert(heading_note(hp) =~= "## "@ + hp + "\n"@);
        }
    }
}
} // verus!
