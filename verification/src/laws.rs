//! What holds of the files list whatever it contains, stated over the same
//! models that the contracts of the library use.
use vstd::prelude::*;
use crate::fileslist::{
    body_lines, found_sources, header_lines, lemma_header_count, lines_of, write_chunks, FilesList,
};
use crate::pysource::{absolute_source, is_bytecode_entry, relative_source};
use crate::pysource::lemma_relative_source_is_no_bytecode_entry;
use crate::text::{
    lemma_increasing_unique, lemma_precedes_irreflexive, lemma_segments_joined, lemma_segments_single, none_contains,
    precedes, segments, starts_with_char, strictly_increasing,
};

verus! {

/// The chunks of text in `chunks`, one after the other.
pub open spec fn concat(chunks: Seq<Seq<char>>) -> Seq<char>
    decreases chunks.len(),
{
    if chunks.len() == 0 {
        seq![]
    } else {
        concat(chunks.drop_last()) + chunks.last()
    }
}

/// The text of a file in which `lines` were written, each followed by a newline.
pub open spec fn written_text(lines: Seq<Seq<char>>) -> Seq<char> {
    concat(write_chunks(lines))
}

/// The text written for lines is the text written for all but the last of
/// them, then the last line, then a newline.
pub proof fn lemma_written_text_step(lines: Seq<Seq<char>>)
    requires
        lines.len() > 0,
    ensures
        written_text(lines) == written_text(lines.drop_last()) + lines.last() + seq!['\n'],
{
    let shorter = write_chunks(lines.drop_last());
    let with_line = shorter.push(lines.last());
    let chunks = with_line.push(seq!['\n']);
    assert(write_chunks(lines) == chunks);
    assert(chunks.drop_last() =~= with_line);
    assert(with_line.drop_last() =~= shorter);
    assert(concat(chunks) == concat(chunks.drop_last()) + chunks.last());
    assert(concat(with_line) == concat(with_line.drop_last()) + with_line.last());
}

/// The text written for `lines` splits at its newlines into `lines` and one
/// empty piece after the last newline.
pub proof fn lemma_written_text_segments(lines: Seq<Seq<char>>)
    requires
        none_contains(lines, '\n'),
    ensures
        segments(written_text(lines), '\n') == lines.push(Seq::<char>::empty()),
    decreases lines.len(),
{
    let empty = Seq::<char>::empty();
    if lines.len() == 0 {
        assert(write_chunks(lines) =~= Seq::<Seq<char>>::empty());
        lemma_segments_single(empty, '\n');
        assert(written_text(lines) =~= empty);
        assert(lines.push(empty) =~= seq![empty]);
    } else {
        let before = lines.drop_last();
        let line = lines.last();
        assert(none_contains(before, '\n')) by {
            assert forall|i: int| 0 <= i < before.len() implies !(#[trigger] before[i]).contains(
                '\n',
            ) by {
                assert(before[i] == lines[i]);
            }
        }
        lemma_written_text_segments(before);
        let text = written_text(before);
        lemma_written_text_step(lines);
        lemma_segments_single(line, '\n');
        lemma_segments_single(empty, '\n');
        lemma_segments_joined(line, empty, '\n');
        assert(line + seq!['\n'] + empty =~= line + seq!['\n']);
        if before.len() == 0 {
            assert(write_chunks(before) =~= Seq::<Seq<char>>::empty());
            assert(text =~= empty);
            assert(written_text(lines) =~= line + seq!['\n'] + empty);
            assert(lines.push(empty) =~= seq![line] + seq![empty]);
        } else {
            let earlier = before.drop_last();
            let prev = before.last();
            lemma_written_text_step(before);
            let stem = written_text(earlier) + prev;
            assert(text =~= stem + seq!['\n'] + empty);
            lemma_segments_joined(stem, empty, '\n');
            assert(segments(stem, '\n') + seq![empty] == before.push(empty));
            assert(segments(stem, '\n') =~= (segments(stem, '\n') + seq![empty]).drop_last());
            assert(before =~= before.push(empty).drop_last());
            assert(segments(stem, '\n') == before);
            assert(written_text(lines) =~= stem + seq!['\n'] + (line + seq!['\n']));
            lemma_segments_joined(stem, line + seq!['\n'], '\n');
            assert(lines.push(empty) =~= before + (seq![line] + seq![empty]));
        }
    }
}

/// Reading back what was written gives the same list: where no line holds a
/// newline, every header line begins with `#` and the first listed file does
/// not, the written text splits into exactly the header that was written and
/// the listed files that were written.
pub proof fn law_written_text_reads_back(headers: Seq<Seq<char>>, body: Seq<Seq<char>>)
    requires
        none_contains(headers + body, '\n'),
        forall|i: int| 0 <= i < headers.len() ==> starts_with_char(#[trigger] headers[i], '#'),
        body.len() > 0 ==> !starts_with_char(body[0], '#'),
    ensures
        lines_of(written_text(headers + body)) == headers + body,
        header_lines(lines_of(written_text(headers + body))) == headers,
        body_lines(lines_of(written_text(headers + body))) == body,
{
    let lines = headers + body;
    lemma_written_text_segments(lines);
    assert(lines.push(Seq::<char>::empty()).drop_last() =~= lines);
    assert(lines_of(written_text(lines)) == lines);
    assert forall|k: int| 0 <= k < headers.len() implies starts_with_char(
        #[trigger] lines[k],
        '#',
    ) by {
        assert(lines[k] == headers[k]);
    }
    lemma_header_count(lines, headers.len() as int);
    assert(lines.take(headers.len() as int) =~= headers);
    assert(lines.skip(headers.len() as int) =~= body);
}

/// The comment lines at the start of a list are its header, whatever follows
/// the first line that is no comment: they are kept as they are and in their order.
pub proof fn law_header_is_leading_comment_lines(
    comments: Seq<Seq<char>>,
    next: Seq<char>,
    rest: Seq<Seq<char>>,
)
    requires
        forall|i: int| 0 <= i < comments.len() ==> starts_with_char(#[trigger] comments[i], '#'),
        !starts_with_char(next, '#'),
    ensures
        header_lines(comments.push(next) + rest) == comments,
        body_lines(comments.push(next) + rest) == seq![next] + rest,
{
    let lines = comments.push(next) + rest;
    assert forall|k: int| 0 <= k < comments.len() implies starts_with_char(
        #[trigger] lines[k],
        '#',
    ) by {
        assert(lines[k] == comments[k]);
    }
    assert(lines[comments.len() as int] == next);
    lemma_header_count(lines, comments.len() as int);
    assert(lines.take(comments.len() as int) =~= comments);
    assert(lines.skip(comments.len() as int) =~= seq![next] + rest);
}

/// What is written for a header and a body begins with what is written for
/// the header alone.
pub proof fn law_header_is_written_first(headers: Seq<Seq<char>>, body: Seq<Seq<char>>)
    ensures
        write_chunks(headers).is_prefix_of(write_chunks(headers + body)),
    decreases body.len(),
{
    if body.len() == 0 {
        assert(headers + body =~= headers);
    } else {
        law_header_is_written_first(headers, body.drop_last());
        assert((headers + body).drop_last() =~= headers + body.drop_last());
        let shorter = write_chunks(headers + body.drop_last());
        let longer = write_chunks(headers + body);
        assert(longer == shorter.push(body.last()).push(seq!['\n']));
        assert(write_chunks(headers) =~= longer.subrange(0, write_chunks(headers).len() as int));
    }
}

/// Lines in strictly increasing order hold no line twice.
pub proof fn law_increasing_lines_are_distinct(body: Seq<Seq<char>>)
    requires
        strictly_increasing(body),
    ensures
        forall|i: int, j: int| 0 <= i < j < body.len() ==> body[i] != body[j],
{
    assert forall|i: int, j: int| 0 <= i < j < body.len() implies body[i] != body[j] by {
        assert(precedes(body[i], body[j]));
        lemma_precedes_irreflexive(body[i]);
    }
}

/// A listed compiled module whose source is on disk has its source among the
/// sources that are added.
pub proof fn law_existing_source_is_found(
    listed: Set<Seq<char>>,
    existing: Set<Seq<char>>,
    entry: Seq<char>,
)
    requires
        listed.contains(entry),
        is_bytecode_entry(entry),
        existing.contains(absolute_source(entry)),
    ensures
        found_sources(listed, existing).contains(relative_source(entry)),
{
}

/// Where the source of no listed compiled module is on disk, nothing is added.
pub proof fn law_missing_sources_add_nothing(listed: Set<Seq<char>>, existing: Set<Seq<char>>)
    requires
        forall|e: Seq<char>|
            listed.contains(e) && is_bytecode_entry(e) ==> !existing.contains(
                #[trigger] absolute_source(e),
            ),
    ensures
        found_sources(listed, existing) == Set::<Seq<char>>::empty(),
        listed.union(found_sources(listed, existing)) == listed,
{
    assert(found_sources(listed, existing) =~= Set::<Seq<char>>::empty());
    assert(listed.union(found_sources(listed, existing)) =~= listed);
}

/// Every added source comes from a listed compiled module: entries that are
/// none lead to no source, and adding sources removes no entry.
pub proof fn law_only_bytecode_entries_lead_to_sources(
    listed: Set<Seq<char>>,
    existing: Set<Seq<char>>,
)
    ensures
        forall|p: Seq<char>| #[trigger]
            found_sources(listed, existing).contains(p) ==> exists|e: Seq<char>|
                #[trigger] listed.contains(e) && is_bytecode_entry(e) && p == relative_source(e),
        (forall|e: Seq<char>| listed.contains(e) ==> !is_bytecode_entry(e)) ==> found_sources(
            listed,
            existing,
        ) == Set::<Seq<char>>::empty(),
        listed.subset_of(listed.union(found_sources(listed, existing))),
{
    assert forall|p: Seq<char>| #[trigger]
        found_sources(listed, existing).contains(p) implies exists|e: Seq<char>|
        #[trigger] listed.contains(e) && is_bytecode_entry(e) && p == relative_source(e) by {
        let e = choose|e: Seq<char>|
            #[trigger] listed.contains(e) && is_bytecode_entry(e) && existing.contains(
                absolute_source(e),
            ) && p == relative_source(e);
        assert(listed.contains(e) && is_bytecode_entry(e) && p == relative_source(e));
    }
    if forall|e: Seq<char>| listed.contains(e) ==> !is_bytecode_entry(e) {
        assert(found_sources(listed, existing) =~= Set::<Seq<char>>::empty());
    }
}

/// A second run finds what the first one found and nothing else: the sources
/// that the first run added lead to no further source, so the list stays as the
/// first run left it.
pub proof fn law_second_run_changes_nothing(listed: Set<Seq<char>>, existing: Set<Seq<char>>)
    ensures
        found_sources(listed.union(found_sources(listed, existing)), existing) == found_sources(
            listed,
            existing,
        ),
        listed.union(found_sources(listed, existing)).union(
            found_sources(listed.union(found_sources(listed, existing)), existing),
        ) == listed.union(found_sources(listed, existing)),
{
    let found = found_sources(listed, existing);
    let after = listed.union(found);
    let again = found_sources(after, existing);
    assert forall|p: Seq<char>| again.contains(p) <==> found.contains(p) by {
        if again.contains(p) {
            let e = choose|e: Seq<char>|
                #[trigger] after.contains(e) && is_bytecode_entry(e) && existing.contains(
                    absolute_source(e),
                ) && p == relative_source(e);
            if found.contains(e) {
                let origin = choose|o: Seq<char>|
                    #[trigger] listed.contains(o) && is_bytecode_entry(o) && existing.contains(
                        absolute_source(o),
                    ) && e == relative_source(o);
                lemma_relative_source_is_no_bytecode_entry(origin);
            }
            assert(listed.contains(e));
        }
        if found.contains(p) {
            let e = choose|e: Seq<char>|
                #[trigger] listed.contains(e) && is_bytecode_entry(e) && existing.contains(
                    absolute_source(e),
                ) && p == relative_source(e);
            assert(after.contains(e));
        }
    }
    assert(again =~= found);
    assert(after.union(again) =~= after);
}

/// The text that is written for a list.
pub open spec fn text_of(list: FilesList) -> Seq<char> {
    written_text(list.header_texts() + list.body())
}

/// Reading back the text written for a list gives the header and the listed
/// files of that list, unless its first listed file begins with `#`: such a
/// line is read back as a header line.
pub proof fn law_written_list_reads_back(list: FilesList)
    requires
        list.wf(),
        list.body().len() > 0 ==> !starts_with_char(list.body()[0], '#'),
    ensures
        header_lines(lines_of(text_of(list))) == list.header_texts(),
        body_lines(lines_of(text_of(list))) == list.body(),
{
    let headers = list.header_texts();
    let body = list.body();
    let lines = headers + body;
    assert forall|i: int| 0 <= i < lines.len() implies !(#[trigger] lines[i]).contains('\n') by {
        if i < headers.len() {
            assert(lines[i] == headers[i]);
        } else {
            assert(lines[i] == body[i - headers.len()]);
        }
    }
    law_written_text_reads_back(headers, body);
}

/// Running twice: `first` is a list as one run left it, with the sources found
/// for the files `listed` that were read; `second` is the list that another run
/// makes of the text written for `first`, with the same files on disk. The
/// second run finds the sources that the first one found, and its list and the
/// text written for it are those of the first run.
pub proof fn law_second_run_leaves_the_text(
    listed: Set<Seq<char>>,
    existing: Set<Seq<char>>,
    first: FilesList,
    second: FilesList,
)
    requires
        first.wf(),
        second.wf(),
        first.listed() == listed.union(found_sources(listed, existing)),
        first.body().len() > 0 ==> !starts_with_char(first.body()[0], '#'),
        second.header_texts() == header_lines(lines_of(text_of(first))),
        second.listed() == body_lines(lines_of(text_of(first))).to_set().union(
            found_sources(body_lines(lines_of(text_of(first))).to_set(), existing),
        ),
    ensures
        found_sources(body_lines(lines_of(text_of(first))).to_set(), existing) == found_sources(
            listed,
            existing,
        ),
        second.header_texts() == first.header_texts(),
        second.body() == first.body(),
        text_of(second) == text_of(first),
{
    law_written_list_reads_back(first);
    law_second_run_changes_nothing(listed, existing);
    assert(second.listed() == first.listed());
    lemma_increasing_unique(second.body(), first.body());
}

} // verus!
