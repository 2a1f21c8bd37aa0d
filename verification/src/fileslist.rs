//! The files list: leading comment lines kept as they are, and below them the
//! listed files, kept as a set and written in lexicographic order.
use vstd::prelude::*;
use crate::error::Error;
use crate::pysource::{
    absolute_source, is_bytecode_entry, is_python_bytecode, lemma_relative_source_avoids,
    python_source_for, relative_source,
};
use crate::text::{
    contains_string, has_first_char, insert_sorted, lemma_none_contains_insert, lemma_push_to_set,
    lemma_segments_avoid, lemma_segments_nonempty, length, none_contains, segments, split,
    starts_with_char, strictly_increasing, substring, texts,
};

verus! {

/// The lines of `content`: the pieces between newlines, without the empty
/// piece that follows a final newline.
pub open spec fn lines_of(content: Seq<char>) -> Seq<Seq<char>> {
    let pieces = segments(content, '\n');
    if pieces.last().len() == 0 {
        pieces.drop_last()
    } else {
        pieces
    }
}

/// How many lines at the start of `lines` begin with `#`.
pub open spec fn header_count(lines: Seq<Seq<char>>) -> nat
    decreases lines.len(),
{
    if lines.len() == 0 || !starts_with_char(lines[0], '#') {
        0
    } else {
        1 + header_count(lines.drop_first())
    }
}

/// The header: the lines at the start of `lines` that begin with `#`.
pub open spec fn header_lines(lines: Seq<Seq<char>>) -> Seq<Seq<char>> {
    lines.take(header_count(lines) as int)
}

/// The lines below the header, whatever they begin with.
pub open spec fn body_lines(lines: Seq<Seq<char>>) -> Seq<Seq<char>> {
    lines.skip(header_count(lines) as int)
}

/// The source paths, relative to the root, of the compiled modules in `listed`
/// whose source path below the root is in `existing`.
pub open spec fn found_sources(listed: Set<Seq<char>>, existing: Set<Seq<char>>) -> Set<
    Seq<char>,
> {
    Set::new(
        |p: Seq<char>|
            exists|e: Seq<char>|
                #[trigger] listed.contains(e) && is_bytecode_entry(e) && existing.contains(
                    absolute_source(e),
                ) && p == relative_source(e),
    )
}

/// The source paths below the root of the compiled modules in `body`, in the
/// order of `body`.
pub open spec fn candidate_paths(body: Seq<Seq<char>>) -> Seq<Seq<char>>
    decreases body.len(),
{
    if body.len() == 0 {
        seq![]
    } else if is_bytecode_entry(body.last()) {
        candidate_paths(body.drop_last()).push(absolute_source(body.last()))
    } else {
        candidate_paths(body.drop_last())
    }
}

/// What is written for `lines`, write by write: each line, then a newline.
pub open spec fn write_chunks(lines: Seq<Seq<char>>) -> Seq<Seq<char>>
    decreases lines.len(),
{
    if lines.len() == 0 {
        seq![]
    } else {
        write_chunks(lines.drop_last()).push(lines.last()).push(seq!['\n'])
    }
}

pub proof fn lemma_header_count(lines: Seq<Seq<char>>, j: int)
    requires
        0 <= j <= lines.len(),
        forall|k: int| 0 <= k < j ==> starts_with_char(#[trigger] lines[k], '#'),
        j == lines.len() || !starts_with_char(lines[j], '#'),
    ensures
        header_count(lines) == j,
    decreases lines.len(),
{
    if lines.len() == 0 || !starts_with_char(lines[0], '#') {
        if j > 0 {
            assert(starts_with_char(lines[0], '#'));
        }
    } else {
        let rest = lines.drop_first();
        assert forall|k: int| 0 <= k < j - 1 implies starts_with_char(#[trigger] rest[k], '#') by {
            assert(rest[k] == lines[k + 1]);
        }
        lemma_header_count(rest, j - 1);
    }
}

pub proof fn lemma_found_sources_insert(
    listed: Set<Seq<char>>,
    entry: Seq<char>,
    existing: Set<Seq<char>>,
)
    ensures
        found_sources(listed.insert(entry), existing) == if is_bytecode_entry(entry)
            && existing.contains(absolute_source(entry)) {
            found_sources(listed, existing).insert(relative_source(entry))
        } else {
            found_sources(listed, existing)
        },
{
    let more = listed.insert(entry);
    let hit = is_bytecode_entry(entry) && existing.contains(absolute_source(entry));
    let target = if hit {
        found_sources(listed, existing).insert(relative_source(entry))
    } else {
        found_sources(listed, existing)
    };
    assert forall|p: Seq<char>| found_sources(more, existing).contains(p) <==> target.contains(
        p,
    ) by {
        if found_sources(more, existing).contains(p) {
            let e = choose|e: Seq<char>|
                #[trigger] more.contains(e) && is_bytecode_entry(e) && existing.contains(
                    absolute_source(e),
                ) && p == relative_source(e);
            if e != entry {
                assert(listed.contains(e));
            }
        }
        if found_sources(listed, existing).contains(p) {
            let e = choose|e: Seq<char>|
                #[trigger] listed.contains(e) && is_bytecode_entry(e) && existing.contains(
                    absolute_source(e),
                ) && p == relative_source(e);
            assert(more.contains(e));
        }
        if hit && p == relative_source(entry) {
            assert(more.contains(entry));
        }
    }
    assert(found_sources(more, existing) =~= target);
}

/// A files list: where it is kept, the comment lines at its start, and the
/// files it lists.
pub struct FilesList {
    filepath: String,
    headers: Vec<String>,
    listed_files: Vec<String>,
}

impl FilesList {
    /// Where the list is kept.
    pub closed spec fn path(&self) -> Seq<char> {
        self.filepath@
    }

    /// The comment lines at the start, in their order.
    pub closed spec fn header_texts(&self) -> Seq<Seq<char>> {
        texts(self.headers@)
    }

    /// The listed files in the order in which they are written.
    pub closed spec fn body(&self) -> Seq<Seq<char>> {
        texts(self.listed_files@)
    }

    /// The listed files as a set.
    pub open spec fn listed(&self) -> Set<Seq<char>> {
        self.body().to_set()
    }

    /// The listed files stand in strictly increasing order, so none is there
    /// twice; every header line begins with `#`; and no line holds a newline.
    pub open spec fn wf(&self) -> bool {
        &&& strictly_increasing(self.body())
        &&& forall|i: int|
            0 <= i < self.header_texts().len() ==> starts_with_char(
                #[trigger] self.header_texts()[i],
                '#',
            )
        &&& none_contains(self.header_texts(), '\n')
        &&& none_contains(self.body(), '\n')
    }

    /// An empty list kept at `filepath`.
    pub fn new(filepath: &str) -> (list: Self)
        ensures
            list.wf(),
            list.path() == filepath@,
            list.header_texts() == Seq::<Seq<char>>::empty(),
            list.body() == Seq::<Seq<char>>::empty(),
    {
        let list = FilesList {
            filepath: filepath.to_owned(),
            headers: Vec::new(),
            listed_files: Vec::new(),
        };
        assert(texts(list.headers@) =~= Seq::<Seq<char>>::empty());
        assert(texts(list.listed_files@) =~= Seq::<Seq<char>>::empty());
        list
    }

    /// Where the list is kept.
    pub fn filepath(&self) -> (path: &str)
        ensures
            path@ == self.path(),
    {
        self.filepath.as_str()
    }

    /// The comment lines at the start, in their order.
    pub fn headers(&self) -> (lines: &Vec<String>)
        ensures
            texts(lines@) == self.header_texts(),
    {
        &self.headers
    }

    /// The listed files in the order in which they are written.
    pub fn listed_files(&self) -> (lines: &Vec<String>)
        ensures
            texts(lines@) == self.body(),
    {
        &self.listed_files
    }

    /// Takes in the text of the stored list: the lines at its start that begin
    /// with `#` are added to the header, every line after them to the listed files.
    pub fn ingest(&mut self, content: &str)
        requires
            old(self).wf(),
        ensures
            final(self).wf(),
            final(self).path() == old(self).path(),
            final(self).header_texts() == old(self).header_texts() + header_lines(
                lines_of(content@),
            ),
            final(self).listed() == old(self).listed().union(
                body_lines(lines_of(content@)).to_set(),
            ),
    {
        let mut lines = split(content, '\n');
        proof {
            lemma_segments_nonempty(content@, '\n');
        }
        if lines[lines.len() - 1].as_str().is_empty() {
            lines.pop();
            assert(texts(lines@) =~= lines_of(content@));
        }
        let ghost all = lines_of(content@);
        let ghost old_headers = self.header_texts();
        let ghost old_listed = self.listed();
        let mut i: usize = 0;
        proof {
            assert(old_headers + all.take(0) =~= old_headers);
            lemma_segments_avoid(content@, '\n', '\n');
            assert forall|k: int| 0 <= k < all.len() implies !(#[trigger] all[k]).contains(
                '\n',
            ) by {
                assert(all[k] == segments(content@, '\n')[k]);
            }
        }
        loop
            invariant
                texts(lines@) == all,
                none_contains(all, '\n'),
                i <= lines.len(),
                forall|k: int| 0 <= k < i ==> starts_with_char(#[trigger] all[k], '#'),
                texts(self.headers@) == old_headers + all.take(i as int),
                forall|k: int|
                    0 <= k < old_headers.len() ==> starts_with_char(
                        #[trigger] old_headers[k],
                        '#',
                    ),
                none_contains(old_headers, '\n'),
                self.filepath == old(self).filepath,
                self.listed_files == old(self).listed_files,
            ensures
                texts(lines@) == all,
                none_contains(all, '\n'),
                i <= lines.len(),
                header_count(all) == i,
                texts(self.headers@) == old_headers + all.take(i as int),
                forall|k: int|
                    0 <= k < texts(self.headers@).len() ==> starts_with_char(
                        #[trigger] texts(self.headers@)[k],
                        '#',
                    ),
                none_contains(texts(self.headers@), '\n'),
                self.filepath == old(self).filepath,
                self.listed_files == old(self).listed_files,
            decreases lines.len() - i,
        {
            proof {
                let so_far = texts(self.headers@);
                assert forall|k: int| 0 <= k < so_far.len() implies starts_with_char(
                    #[trigger] so_far[k],
                    '#',
                ) && !so_far[k].contains('\n') by {
                    if k < old_headers.len() {
                        assert(so_far[k] == old_headers[k]);
                    } else {
                        assert(so_far[k] == all[k - old_headers.len()]);
                    }
                }
            }
            if i >= lines.len() {
                proof {
                    lemma_header_count(all, i as int);
                }
                break;
            }
            if !has_first_char(lines[i].as_str(), '#') {
                proof {
                    lemma_header_count(all, i as int);
                }
                break;
            }
            let line = lines[i].clone();
            proof {
                assert(all.take(i + 1) =~= all.take(i as int).push(line@));
                assert(texts(self.headers@.push(line)) =~= texts(self.headers@).push(line@));
            }
            self.headers.push(line);
            i += 1;
        }
        let first: usize = i;
        let ghost headers_read = self.headers;
        assert(old_listed.union(all.subrange(first as int, i as int).to_set()) =~= old_listed);
        while i < lines.len()
            invariant
                texts(lines@) == all,
                first <= i <= lines.len(),
                none_contains(all, '\n'),
                header_count(all) == first,
                texts(self.headers@) == old_headers + all.take(first as int),
                self.headers == headers_read,
                self.filepath == old(self).filepath,
                strictly_increasing(texts(self.listed_files@)),
                none_contains(texts(self.listed_files@), '\n'),
                texts(self.listed_files@).to_set() == old_listed.union(
                    all.subrange(first as int, i as int).to_set(),
                ),
            decreases lines.len() - i,
        {
            let line = lines[i].clone();
            let ghost listed_before = texts(self.listed_files@);
            proof {
                let seen = all.subrange(first as int, i as int);
                assert(all.subrange(first as int, i + 1) =~= seen.push(line@));
                lemma_push_to_set(seen, line@);
                assert(old_listed.union(seen.to_set()).insert(line@) =~= old_listed.union(
                    seen.to_set().insert(line@),
                ));
                assert(line@ == all[i as int]);
            }
            insert_sorted(&mut self.listed_files, line);
            proof {
                lemma_none_contains_insert(
                    listed_before,
                    texts(self.listed_files@),
                    line@,
                    '\n',
                );
            }
            i += 1;
        }
        assert(all.subrange(first as int, i as int) =~= body_lines(all));
    }

    /// The source paths that may belong to the compiled module `pyc_path`: one
    /// path below the root.
    pub fn suggest_python_sources_for(pyc_path: &str) -> (res: Result<Vec<String>, Error>)
        ensures
            res matches Ok(paths) && texts(paths@) == seq![absolute_source(pyc_path@)],
    {
        let path = python_source_for(pyc_path)?;
        let mut paths: Vec<String> = Vec::new();
        proof {
            assert(texts(paths@.push(path)) =~= seq![path@]);
        }
        paths.push(path);
        Ok(paths)
    }

    /// The source paths below the root of the compiled modules that are listed,
    /// in the order of the list: the paths to look for on disk.
    pub fn python_source_candidates(&self) -> (res: Result<Vec<String>, Error>)
        ensures
            res matches Ok(paths) && texts(paths@) == candidate_paths(self.body()),
    {
        let mut paths: Vec<String> = Vec::new();
        let mut i: usize = 0;
        let ghost body = self.body();
        assert(body.take(0) =~= Seq::<Seq<char>>::empty());
        assert(texts(paths@) =~= Seq::<Seq<char>>::empty());
        while i < self.listed_files.len()
            invariant
                i <= self.listed_files.len(),
                body == texts(self.listed_files@),
                texts(paths@) == candidate_paths(body.take(i as int)),
            decreases self.listed_files.len() - i,
        {
            let line = self.listed_files[i].as_str();
            proof {
                let upto = body.take(i + 1);
                assert(upto.drop_last() =~= body.take(i as int));
                assert(upto.last() == line@);
            }
            if is_python_bytecode(line) {
                let path = python_source_for(line)?;
                proof {
                    assert(texts(paths@.push(path)) =~= texts(paths@).push(path@));
                }
                paths.push(path);
            }
            i += 1;
        }
        assert(body.take(i as int) =~= body);
        Ok(paths)
    }

    /// Adds to the listed files the source of each listed compiled module whose
    /// source path below the root is among `existing`, the paths at which a file
    /// was found. Returns the sources, relative to the root, in increasing order.
    pub fn add_missing_python_source_files(&mut self, existing: &Vec<String>) -> (res: Result<
        Vec<String>,
        Error,
    >)
        requires
            old(self).wf(),
        ensures
            final(self).wf(),
            final(self).path() == old(self).path(),
            final(self).header_texts() == old(self).header_texts(),
            res matches Ok(added) && strictly_increasing(texts(added@)) && texts(added@).to_set()
                == found_sources(old(self).listed(), texts(existing@).to_set())
                && final(self).listed() == old(self).listed().union(texts(added@).to_set()),
    {
        let mut added: Vec<String> = Vec::new();
        let ghost body = self.body();
        let ghost on_disk = texts(existing@).to_set();
        let mut i: usize = 0;
        proof {
            assert(texts(added@) =~= Seq::<Seq<char>>::empty());
            assert(body.take(0).to_set() =~= Set::<Seq<char>>::empty());
            assert(found_sources(Set::<Seq<char>>::empty(), on_disk) =~= Set::<
                Seq<char>,
            >::empty());
            assert(texts(added@).to_set() =~= Set::<Seq<char>>::empty());
        }
        while i < self.listed_files.len()
            invariant
                i <= self.listed_files.len(),
                *self == *old(self),
                body == texts(self.listed_files@),
                on_disk == texts(existing@).to_set(),
                none_contains(body, '\n'),
                strictly_increasing(texts(added@)),
                none_contains(texts(added@), '\n'),
                texts(added@).to_set() == found_sources(body.take(i as int).to_set(), on_disk),
            decreases self.listed_files.len() - i,
        {
            let line = self.listed_files[i].as_str();
            proof {
                assert(body.take(i + 1) =~= body.take(i as int).push(line@));
                lemma_push_to_set(body.take(i as int), line@);
                lemma_found_sources_insert(body.take(i as int).to_set(), line@, on_disk);
            }
            if is_python_bytecode(line) {
                let path = python_source_for(line)?;
                if contains_string(existing, path.as_str()) {
                    let n: usize = length(path.as_str());
                    let relative = substring(path.as_str(), 1, n).to_owned();
                    let ghost added_before = texts(added@);
                    proof {
                        assert(relative@ =~= relative_source(line@));
                        assert(line@ == body[i as int]);
                        lemma_relative_source_avoids(line@, '\n');
                    }
                    insert_sorted(&mut added, relative);
                    proof {
                        lemma_none_contains_insert(
                            added_before,
                            texts(added@),
                            relative_source(line@),
                            '\n',
                        );
                    }
                }
            }
            i += 1;
        }
        assert(body.take(i as int) =~= body);
        let ghost old_listed = self.listed();
        let mut k: usize = 0;
        assert(old_listed.union(texts(added@).take(0).to_set()) =~= old_listed);
        while k < added.len()
            invariant
                k <= added.len(),
                self.filepath == old(self).filepath,
                self.headers == old(self).headers,
                old_listed == old(self).listed(),
                none_contains(texts(added@), '\n'),
                strictly_increasing(texts(self.listed_files@)),
                none_contains(texts(self.listed_files@), '\n'),
                texts(self.listed_files@).to_set() == old_listed.union(
                    texts(added@).take(k as int).to_set(),
                ),
            decreases added.len() - k,
        {
            let line = added[k].clone();
            let ghost listed_before = texts(self.listed_files@);
            proof {
                assert(line@ == texts(added@)[k as int]);
                let seen = texts(added@).take(k as int);
                assert(texts(added@).take(k + 1) =~= seen.push(line@));
                lemma_push_to_set(seen, line@);
                assert(old_listed.union(seen.to_set()).insert(line@) =~= old_listed.union(
                    seen.to_set().insert(line@),
                ));
            }
            insert_sorted(&mut self.listed_files, line);
            proof {
                lemma_none_contains_insert(
                    listed_before,
                    texts(self.listed_files@),
                    line@,
                    '\n',
                );
            }
            k += 1;
        }
        assert(texts(added@).take(k as int) =~= texts(added@));
        Ok(added)
    }

    /// Takes in the stored text `content`, then adds the sources that were found
    /// on disk, as `ingest` and `add_missing_python_source_files` do in turn.
    pub fn include_python_source_files(&mut self, content: &str, existing: &Vec<String>) -> (res:
        Result<Vec<String>, Error>)
        requires
            old(self).wf(),
        ensures
            final(self).wf(),
            final(self).path() == old(self).path(),
            final(self).header_texts() == old(self).header_texts() + header_lines(
                lines_of(content@),
            ),
            res matches Ok(added) && strictly_increasing(texts(added@)) && texts(added@).to_set()
                == found_sources(
                old(self).listed().union(body_lines(lines_of(content@)).to_set()),
                texts(existing@).to_set(),
            ) && final(self).listed() == old(self).listed().union(
                body_lines(lines_of(content@)).to_set(),
            ).union(texts(added@).to_set()),
    {
        self.ingest(content);
        self.add_missing_python_source_files(existing)
    }

    /// What is to be written from the start of the file, write by write: each
    /// header line and then each listed file, each followed by a newline of its own.
    pub fn write_plan(&self) -> (chunks: Vec<String>)
        ensures
            texts(chunks@) == write_chunks(self.header_texts() + self.body()),
    {
        let mut chunks: Vec<String> = Vec::new();
        let ghost heads = self.header_texts();
        let ghost all = self.header_texts() + self.body();
        let mut i: usize = 0;
        assert(all.take(0) =~= Seq::<Seq<char>>::empty());
        assert(texts(chunks@) =~= Seq::<Seq<char>>::empty());
        while i < self.headers.len()
            invariant
                i <= self.headers.len(),
                heads == texts(self.headers@),
                all == heads + texts(self.listed_files@),
                texts(chunks@) == write_chunks(all.take(i as int)),
            decreases self.headers.len() - i,
        {
            let line = self.headers[i].clone();
            let newline = "\n".to_owned();
            proof {
                reveal_strlit("\n");
                assert(newline@ =~= seq!['\n']);
                let upto = all.take(i + 1);
                assert(upto.drop_last() =~= all.take(i as int));
                assert(upto.last() == line@);
                assert(texts(chunks@.push(line).push(newline)) =~= texts(chunks@).push(
                    line@,
                ).push(newline@));
            }
            chunks.push(line);
            chunks.push(newline);
            i += 1;
        }
        let mut k: usize = 0;
        while k < self.listed_files.len()
            invariant
                k <= self.listed_files.len(),
                heads == texts(self.headers@),
                all == heads + texts(self.listed_files@),
                texts(chunks@) == write_chunks(all.take(heads.len() + k)),
            decreases self.listed_files.len() - k,
        {
            let line = self.listed_files[k].clone();
            let newline = "\n".to_owned();
            proof {
                reveal_strlit("\n");
                assert(newline@ =~= seq!['\n']);
                let upto = all.take(heads.len() + k + 1);
                assert(upto.drop_last() =~= all.take(heads.len() + k));
                assert(upto.last() == line@);
                assert(texts(chunks@.push(line).push(newline)) =~= texts(chunks@).push(
                    line@,
                ).push(newline@));
            }
            chunks.push(line);
            chunks.push(newline);
            k += 1;
        }
        assert(all.take(heads.len() + k) =~= all);
        chunks
    }

    /// Judges one write of `chunk`: `written` bytes went out. Fewer than the
    /// bytes of `chunk` is an error that names the list's path.
    pub fn check_write(&self, chunk: &str, written: usize) -> (res: Result<(), Error>)
        ensures
            written >= vstd::utf8::encode_utf8(chunk@).len() ==> res is Ok,
            written < vstd::utf8::encode_utf8(chunk@).len() ==> (res matches Err(
                Error::FilesListWriteIncomplete(path),
            ) && path@ == self.path()),
    {
        if written < chunk.as_bytes().len() {
            Err(Error::FilesListWriteIncomplete(self.filepath.clone()))
        } else {
            Ok(())
        }
    }
}

} // verus!
