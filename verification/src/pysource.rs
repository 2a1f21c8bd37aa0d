//! The naming rule that leads from a compiled Python module inside an
//! interpreter cache directory back to the source file it was compiled from.
use vstd::prelude::*;
use crate::error::Error;
use crate::text::{
    contains_text, ends_with, find, first_occurrence, has_suffix, lemma_first_occurrence_exists,
    lemma_segments_avoid, lemma_segments_joined, lemma_segments_single, none_contains, same,
    segments, split, substring, texts,
};

verus! {

/// The name of the interpreter's cache directory.
pub open spec fn pycache_directory() -> Seq<char> {
    "__pycache__"@
}

/// The marker that separates a module's base name from the interpreter tag.
pub open spec fn dot_cpython_dash() -> Seq<char> {
    ".cpython-"@
}

/// The extension of a compiled module.
pub open spec fn pyc_extension() -> Seq<char> {
    ".pyc"@
}

/// The extension of a source file.
pub open spec fn py_extension() -> Seq<char> {
    ".py"@
}

/// A piece of a path between separators that counts as a component: empty
/// pieces and the current-directory dot do not.
pub open spec fn is_component(piece: Seq<char>) -> bool {
    piece.len() > 0 && piece != "."@
}

/// A list entry that names a compiled module in a cache directory: one of its
/// path components is the cache directory, and it ends with the compiled-module
/// extension.
pub open spec fn is_bytecode_entry(entry: Seq<char>) -> bool {
    segments(entry, '/').contains(pycache_directory()) && ends_with(entry, pyc_extension())
}

/// A component that carries an interpreter tag and the compiled-module extension.
pub open spec fn is_tagged_module(component: Seq<char>) -> bool {
    contains_text(component, dot_cpython_dash()) && ends_with(component, pyc_extension())
}

/// What stands before the first marker in `component`, with the source-file extension.
pub open spec fn source_name(component: Seq<char>) -> Seq<char> {
    component.take(first_occurrence(component, dot_cpython_dash())) + py_extension()
}

/// The components of the source path that belongs to the pieces `pieces` of a
/// path: cache directories are dropped, tagged module names are replaced by
/// their source names, every other component is kept.
pub open spec fn source_parts(pieces: Seq<Seq<char>>) -> Seq<Seq<char>>
    decreases pieces.len(),
{
    if pieces.len() == 0 {
        seq![]
    } else {
        let before = source_parts(pieces.drop_last());
        let piece = pieces.last();
        if !is_component(piece) || piece == pycache_directory() {
            before
        } else if is_tagged_module(piece) {
            before.push(source_name(piece))
        } else {
            before.push(piece)
        }
    }
}

/// The components `parts`, each with a separator before it.
pub open spec fn rooted(parts: Seq<Seq<char>>) -> Seq<char>
    decreases parts.len(),
{
    if parts.len() == 0 {
        seq![]
    } else {
        rooted(parts.drop_last()) + seq!['/'] + parts.last()
    }
}

/// The source path of `entry` relative to the root: without a leading separator.
pub open spec fn relative_source(entry: Seq<char>) -> Seq<char> {
    let path = rooted(source_parts(segments(entry, '/')));
    if path.len() == 0 {
        path
    } else {
        path.skip(1)
    }
}

/// The source path of `entry` below the root: with its leading separator.
pub open spec fn absolute_source(entry: Seq<char>) -> Seq<char> {
    seq!['/'] + relative_source(entry)
}

/// The source file name for a tagged module name: what stands before the first
/// marker, with the source-file extension. Fails where there is no marker.
pub fn source_file_name(component: &str) -> (res: Result<String, Error>)
    ensures
        contains_text(component@, dot_cpython_dash()) ==> (res matches Ok(name) && name@
            == source_name(component@)),
        !contains_text(component@, dot_cpython_dash()) ==> (res matches Err(
            Error::FailedToSplitFilename(name),
        ) && name@ == component@),
{
    match find(component, ".cpython-") {
        Some(at) => {
            let left = substring(component, 0, at);
            let mut name = left.to_owned();
            name.append(".py");
            Ok(name)
        },
        None => Err(Error::FailedToSplitFilename(component.to_owned())),
    }
}

/// Whether `entry` names a compiled module in a cache directory.
pub fn is_python_bytecode(entry: &str) -> (r: bool)
    ensures
        r == is_bytecode_entry(entry@),
{
    if !has_suffix(entry, ".pyc") {
        return false;
    }
    let pieces = split(entry, '/');
    let mut i: usize = 0;
    while i < pieces.len()
        invariant
            i <= pieces.len(),
            ends_with(entry@, pyc_extension()),
            texts(pieces@) == segments(entry@, '/'),
            forall|k: int| 0 <= k < i ==> texts(pieces@)[k] != pycache_directory(),
        decreases pieces.len() - i,
    {
        if same(pieces[i].as_str(), "__pycache__") {
            proof {
                let all = segments(entry@, '/');
                assert(all[i as int] == pycache_directory());
                assert(all.contains(pycache_directory()));
            }
            return true;
        }
        i += 1;
    }
    false
}

/// The components of the source path for the path `pyc_path`.
pub fn source_components(pyc_path: &str) -> (res: Result<Vec<String>, Error>)
    ensures
        res matches Ok(parts) && texts(parts@) == source_parts(segments(pyc_path@, '/')),
{
    let pieces = split(pyc_path, '/');
    let mut parts: Vec<String> = Vec::new();
    let mut i: usize = 0;
    assert(texts(pieces@).take(0) =~= Seq::<Seq<char>>::empty());
    assert(texts(parts@) =~= Seq::<Seq<char>>::empty());
    while i < pieces.len()
        invariant
            i <= pieces.len(),
            texts(pieces@) == segments(pyc_path@, '/'),
            texts(parts@) == source_parts(texts(pieces@).take(i as int)),
        decreases pieces.len() - i,
    {
        let piece = pieces[i].as_str();
        let ghost before = texts(pieces@).take(i as int);
        let ghost upto = texts(pieces@).take(i + 1);
        proof {
            assert(upto.drop_last() =~= before);
            assert(upto.last() == piece@);
        }
        if piece.is_empty() || same(piece, ".") || same(piece, "__pycache__") {
        } else if find(piece, ".cpython-").is_some() && has_suffix(piece, ".pyc") {
            let name = source_file_name(piece)?;
            proof {
                assert(texts(parts@.push(name)) =~= texts(parts@).push(name@));
            }
            parts.push(name);
        } else {
            let kept = piece.to_owned();
            proof {
                assert(texts(parts@.push(kept)) =~= texts(parts@).push(kept@));
            }
            parts.push(kept);
        }
        i += 1;
    }
    assert(texts(pieces@).take(i as int) =~= texts(pieces@));
    Ok(parts)
}

/// The components `parts` as one path below the root.
pub fn rooted_path(parts: &Vec<String>) -> (path: String)
    ensures
        path@ == rooted(texts(parts@)),
{
    let mut path = String::new();
    let mut i: usize = 0;
    assert(texts(parts@).take(0) =~= Seq::<Seq<char>>::empty());
    while i < parts.len()
        invariant
            i <= parts.len(),
            path@ == rooted(texts(parts@).take(i as int)),
        decreases parts.len() - i,
    {
        proof {
            reveal_strlit("/");
            let upto = texts(parts@).take(i + 1);
            assert(upto.drop_last() =~= texts(parts@).take(i as int));
            assert(upto.last() == parts@[i as int]@);
            assert("/"@ =~= seq!['/']);
        }
        path.append("/");
        path.append(parts[i].as_str());
        i += 1;
    }
    assert(texts(parts@).take(i as int) =~= texts(parts@));
    path
}

/// The source path of the compiled module `pyc_path`, below the root.
pub fn python_source_for(pyc_path: &str) -> (res: Result<String, Error>)
    ensures
        res matches Ok(path) && path@ == absolute_source(pyc_path@),
{
    let parts = source_components(pyc_path)?;
    let path = rooted_path(&parts);
    if path.as_str().is_empty() {
        proof {
            assert(absolute_source(pyc_path@) =~= seq!['/']);
            reveal_strlit("/");
            assert("/"@ =~= seq!['/']);
        }
        Ok("/".to_owned())
    } else {
        proof {
            lemma_rooted_starts_with_separator(texts(parts@));
            assert(absolute_source(pyc_path@) =~= path@);
        }
        Ok(path)
    }
}

/// A rooted path that is not empty begins with the separator.
pub proof fn lemma_rooted_starts_with_separator(parts: Seq<Seq<char>>)
    ensures
        rooted(parts).len() > 0 ==> rooted(parts)[0] == '/',
        parts.len() > 0 ==> rooted(parts).len() > 0,
    decreases parts.len(),
{
    if parts.len() > 0 {
        lemma_rooted_starts_with_separator(parts.drop_last());
    }
}

/// Source path components hold no separator and none of them is the cache directory.
pub proof fn lemma_source_parts_are_plain(pieces: Seq<Seq<char>>)
    requires
        forall|i: int| 0 <= i < pieces.len() ==> !(#[trigger] pieces[i]).contains('/'),
    ensures
        forall|i: int|
            0 <= i < source_parts(pieces).len() ==> !(#[trigger] source_parts(pieces)[i]).contains(
                '/',
            ) && source_parts(pieces)[i] != pycache_directory(),
    decreases pieces.len(),
{
    if pieces.len() > 0 {
        let before = pieces.drop_last();
        let piece = pieces.last();
        assert forall|i: int| 0 <= i < before.len() implies !(#[trigger] before[i]).contains(
            '/',
        ) by {
            assert(before[i] == pieces[i]);
        }
        lemma_source_parts_are_plain(before);
        let prior = source_parts(before);
        let parts = source_parts(pieces);
        let tagged = is_component(piece) && piece != pycache_directory() && is_tagged_module(
            piece,
        );
        if tagged {
            let at = first_occurrence(piece, dot_cpython_dash());
            let name = source_name(piece);
            lemma_first_occurrence_exists(piece, dot_cpython_dash());
            reveal_strlit(".py");
            reveal_strlit("__pycache__");
            assert(name.len() == at + 3);
            assert(name[name.len() - 1] == 'y');
            assert(pycache_directory()[10] == '_');
            assert(name != pycache_directory());
            if name.contains('/') {
                let k = choose|k: int| 0 <= k < name.len() && name[k] == '/';
                if k < at {
                    assert(piece[k] == '/');
                    assert(piece.contains('/'));
                } else {
                    assert(name[k] == py_extension()[k - at]);
                }
            }
        }
        assert forall|i: int| 0 <= i < parts.len() implies !(#[trigger] parts[i]).contains('/')
            && parts[i] != pycache_directory() by {
            if i < prior.len() {
                assert(parts[i] == prior[i]);
            } else if tagged {
                assert(parts[i] == source_name(piece));
            } else {
                assert(parts[i] == piece);
                assert(piece == pieces[pieces.len() - 1]);
            }
        }
    }
}

/// A rooted path of components without separators splits into an empty piece
/// and the components.
pub proof fn lemma_rooted_segments(parts: Seq<Seq<char>>)
    requires
        forall|i: int| 0 <= i < parts.len() ==> !(#[trigger] parts[i]).contains('/'),
    ensures
        segments(rooted(parts), '/') == seq![Seq::<char>::empty()] + parts,
    decreases parts.len(),
{
    let empty = Seq::<char>::empty();
    if parts.len() == 0 {
        lemma_segments_single(empty, '/');
        assert(rooted(parts) =~= empty);
        assert(seq![empty] + parts =~= seq![empty]);
    } else {
        let before = parts.drop_last();
        assert forall|i: int| 0 <= i < before.len() implies !(#[trigger] before[i]).contains(
            '/',
        ) by {
            assert(before[i] == parts[i]);
        }
        lemma_rooted_segments(before);
        lemma_segments_joined(rooted(before), parts.last(), '/');
        lemma_segments_single(parts.last(), '/');
        assert((seq![empty] + before) + seq![parts.last()] =~= seq![empty] + parts);
    }
}

/// The source path of an entry, relative to the root, never names a compiled
/// module in a cache directory: the cache directories were dropped from it.
pub proof fn lemma_relative_source_is_no_bytecode_entry(entry: Seq<char>)
    ensures
        !is_bytecode_entry(relative_source(entry)),
{
    let empty = Seq::<char>::empty();
    let pieces = segments(entry, '/');
    let parts = source_parts(pieces);
    let path = rooted(parts);
    let relative = relative_source(entry);
    lemma_segments_avoid(entry, '/', '/');
    lemma_source_parts_are_plain(pieces);
    lemma_rooted_segments(parts);
    lemma_rooted_starts_with_separator(parts);
    reveal_strlit("__pycache__");
    if path.len() == 0 {
        lemma_segments_single(empty, '/');
        assert(relative =~= empty);
        assert(segments(relative, '/') == seq![empty]);
        assert(seq![empty][0] == empty);
    } else {
        assert(path =~= empty + seq!['/'] + relative);
        lemma_segments_joined(empty, relative, '/');
        lemma_segments_single(empty, '/');
        let found = segments(relative, '/');
        assert(seq![empty] + found == seq![empty] + parts);
        assert(found =~= (seq![empty] + found).skip(1));
        assert(parts =~= (seq![empty] + parts).skip(1));
        assert((seq![empty] + found).len() == (seq![empty] + parts).len());
        assert(found == parts);
    }
    if segments(relative, '/').contains(pycache_directory()) {
        let k = choose|k: int|
            0 <= k < segments(relative, '/').len() && segments(relative, '/')[k]
                == pycache_directory();
        assert(false);
    }
}

/// Where no piece holds the character `c`, and `c` is none of the characters
/// of the source-file extension, no source path component holds it.
pub proof fn lemma_source_parts_avoid(pieces: Seq<Seq<char>>, c: char)
    requires
        none_contains(pieces, c),
        c != '.' && c != 'p' && c != 'y',
    ensures
        none_contains(source_parts(pieces), c),
    decreases pieces.len(),
{
    if pieces.len() > 0 {
        let before = pieces.drop_last();
        let piece = pieces.last();
        assert forall|i: int| 0 <= i < before.len() implies !(#[trigger] before[i]).contains(
            c,
        ) by {
            assert(before[i] == pieces[i]);
        }
        lemma_source_parts_avoid(before, c);
        let prior = source_parts(before);
        let parts = source_parts(pieces);
        let tagged = is_component(piece) && piece != pycache_directory() && is_tagged_module(
            piece,
        );
        if tagged {
            let at = first_occurrence(piece, dot_cpython_dash());
            let name = source_name(piece);
            lemma_first_occurrence_exists(piece, dot_cpython_dash());
            reveal_strlit(".py");
            if name.contains(c) {
                let k = choose|k: int| 0 <= k < name.len() && name[k] == c;
                if k < at {
                    assert(piece[k] == c);
                    assert(piece.contains(c));
                } else {
                    assert(name[k] == py_extension()[k - at]);
                }
            }
        }
        assert forall|i: int| 0 <= i < parts.len() implies !(#[trigger] parts[i]).contains(c) by {
            if i < prior.len() {
                assert(parts[i] == prior[i]);
            } else if tagged {
                assert(parts[i] == source_name(piece));
            } else {
                assert(parts[i] == piece);
                assert(piece == pieces[pieces.len() - 1]);
            }
        }
    }
}

/// A rooted path holds no character but the separator and those of its components.
pub proof fn lemma_rooted_avoids(parts: Seq<Seq<char>>, c: char)
    requires
        none_contains(parts, c),
        c != '/',
    ensures
        !rooted(parts).contains(c),
    decreases parts.len(),
{
    let path = rooted(parts);
    if parts.len() > 0 {
        let before = parts.drop_last();
        assert forall|i: int| 0 <= i < before.len() implies !(#[trigger] before[i]).contains(
            c,
        ) by {
            assert(before[i] == parts[i]);
        }
        lemma_rooted_avoids(before, c);
        let stem = rooted(before);
        let last = parts.last();
        if path.contains(c) {
            let k = choose|k: int| 0 <= k < path.len() && path[k] == c;
            if k < stem.len() {
                assert(stem[k] == c);
                assert(stem.contains(c));
            } else if k > stem.len() {
                assert(last[k - stem.len() - 1] == c);
                assert(last.contains(c));
            }
        }
    }
}

/// The source path of an entry holds no character that the entry does not
/// hold, but for the separator and the characters of the source-file extension.
pub proof fn lemma_relative_source_avoids(entry: Seq<char>, c: char)
    requires
        !entry.contains(c),
        c != '/' && c != '.' && c != 'p' && c != 'y',
    ensures
        !relative_source(entry).contains(c),
{
    let pieces = segments(entry, '/');
    let parts = source_parts(pieces);
    let path = rooted(parts);
    let relative = relative_source(entry);
    lemma_segments_avoid(entry, '/', c);
    lemma_source_parts_avoid(pieces, c);
    lemma_rooted_avoids(parts, c);
    if relative.contains(c) {
        let k = choose|k: int| 0 <= k < relative.len() && relative[k] == c;
        if path.len() > 0 {
            assert(path[k + 1] == c);
        }
        assert(path.contains(c));
    }
}

} // verus!
