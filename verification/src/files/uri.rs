//! Paths written as `file:` URIs, and read back.

use vstd::prelude::*;

verus! {

/// Whether a byte may stand in a `file:` URI unescaped: the unreserved
/// characters of RFC 3986, and the separator between path components.
/// Everything else, every non-ASCII byte included, is escaped, which is what
/// makes a path that is not UTF-8 survive the trip.
pub open spec fn unreserved(byte: u8) -> bool {
    ||| 0x30 <= byte <= 0x39
    ||| 0x41 <= byte <= 0x5a
    ||| 0x61 <= byte <= 0x7a
    ||| byte == 0x2d
    ||| byte == 0x2e
    ||| byte == 0x5f
    ||| byte == 0x7e
    ||| byte == 0x2f
}

/// An upper-case base16 digit.
pub open spec fn hex_digit(value: u8) -> u8 {
    if value < 10 {
        (0x30 + value) as u8
    } else {
        (0x37 + value) as u8
    }
}

/// A byte as it stands in a URI.
pub open spec fn piece(byte: u8) -> Seq<u8> {
    if unreserved(byte) {
        seq![byte]
    } else {
        seq![0x25u8, hex_digit(byte / 16), hex_digit(byte % 16)]
    }
}

/// A path as it stands in a URI.
pub open spec fn escaped(path: Seq<u8>) -> Seq<u8>
    decreases path.len(),
{
    if path.len() == 0 {
        Seq::empty()
    } else {
        escaped(path.drop_last()) + piece(path.last())
    }
}

/// What a base16 digit of either case is worth.
pub open spec fn digit_value(byte: u8) -> Option<u8> {
    if 0x30 <= byte <= 0x39 {
        Some((byte - 0x30) as u8)
    } else if 0x41 <= byte <= 0x46 {
        Some((byte - 0x37) as u8)
    } else if 0x61 <= byte <= 0x66 {
        Some((byte - 0x57) as u8)
    } else {
        None
    }
}

/// Some bytes with their escapes undone: a percent sign and two base16 digits
/// stand for one byte, and anything else for itself.
pub open spec fn unescaped(bytes: Seq<u8>) -> Seq<u8>
    decreases bytes.len(),
{
    if bytes.len() == 0 {
        Seq::empty()
    } else if bytes[0] == 0x25 && bytes.len() >= 3 && digit_value(bytes[1]) is Some && digit_value(
        bytes[2],
    ) is Some {
        seq![(digit_value(bytes[1])->0 * 16 + digit_value(bytes[2])->0) as u8] + unescaped(
            bytes.skip(3),
        )
    } else {
        seq![bytes[0]] + unescaped(bytes.skip(1))
    }
}

/// `percent_encoding::percent_decode` undoes the escapes, and leaves half an
/// escape as it is.
#[verifier::external_body]
pub(crate) fn percent_decode(bytes: &[u8]) -> (decoded: Vec<u8>)
    ensures
        decoded@ == unescaped(bytes@),
{
    percent_encoding::percent_decode(bytes).collect()
}

/// An upper-case base16 digit.
fn upper_digit(value: u8) -> (digit: u8)
    requires
        value < 16,
    ensures
        digit == hex_digit(value),
{
    if value < 10 {
        0x30 + value
    } else {
        0x37 + value
    }
}

/// Whether a byte may stand in a URI unescaped.
fn is_unreserved(byte: u8) -> (r: bool)
    ensures
        r == unreserved(byte),
{
    (0x30 <= byte && byte <= 0x39) || (0x41 <= byte && byte <= 0x5a) || (0x61 <= byte && byte
        <= 0x7a) || byte == 0x2d || byte == 0x2e || byte == 0x5f || byte == 0x7e || byte == 0x2f
}

/// Appends a path to a URI being built, escaped.
pub fn escape(uri: &mut Vec<u8>, path: &[u8])
    ensures
        final(uri)@ == old(uri)@ + escaped(path@),
{
    let mut i: usize = 0;
    assert(uri@ =~= old(uri)@ + escaped(path@.take(0)));
    while i < path.len()
        invariant
            i <= path.len(),
            uri@ == old(uri)@ + escaped(path@.take(i as int)),
        decreases path.len() - i,
    {
        let byte: u8 = path[i];
        let ghost before = uri@;
        if is_unreserved(byte) {
            uri.push(byte);
        } else {
            uri.push(0x25);
            uri.push(upper_digit(byte / 16));
            uri.push(upper_digit(byte % 16));
        }
        assert(uri@ =~= before + piece(byte));
        assert(path@.take(i + 1).drop_last() =~= path@.take(i as int));
        i += 1;
        assert(uri@ =~= old(uri)@ + escaped(path@.take(i as int)));
    }
    assert(path@.take(i as int) =~= path@);
}

proof fn lemma_escaped_first(path: Seq<u8>)
    requires
        path.len() > 0,
    ensures
        escaped(path) == piece(path[0]) + escaped(path.skip(1)),
    decreases path.len(),
{
    if path.len() == 1 {
        assert(path.drop_last() =~= Seq::<u8>::empty());
        assert(path.skip(1) =~= Seq::<u8>::empty());
        assert(escaped(path) =~= piece(path[0]) + escaped(path.skip(1)));
    } else {
        lemma_escaped_first(path.drop_last());
        assert(path.drop_last().skip(1) =~= path.skip(1).drop_last());
        assert(escaped(path) =~= piece(path[0]) + escaped(path.skip(1)));
    }
}

proof fn lemma_piece(byte: u8)
    ensures
        !unreserved(byte) ==> digit_value(hex_digit(byte / 16)) == Some((byte / 16) as u8)
            && digit_value(hex_digit(byte % 16)) == Some((byte % 16) as u8) && (byte / 16) * 16 + (
        byte % 16) == byte,
{
}

/// Undoing the escapes of an escaped path gives the path.
pub proof fn escaping_is_undone(path: Seq<u8>)
    ensures
        unescaped(escaped(path)) == path,
    decreases path.len(),
{
    if path.len() > 0 {
        lemma_escaped_first(path);
        let rest = escaped(path.skip(1));
        escaping_is_undone(path.skip(1));
        lemma_piece(path[0]);
        let all = piece(path[0]) + rest;
        if unreserved(path[0]) {
            assert(all[0] == path[0]);
            assert(all.skip(1) =~= rest);
        } else {
            assert(all[0] == 0x25 && all[1] == hex_digit(path[0] / 16) && all[2] == hex_digit(
                path[0] % 16,
            ));
            assert(all.skip(3) =~= rest);
        }
        assert(unescaped(all) =~= seq![path[0]] + path.skip(1));
        assert(seq![path[0]] + path.skip(1) =~= path);
    } else {
        assert(path =~= Seq::<u8>::empty());
    }
}

/// An escaped path holds only bytes that may stand in a URI, and percent
/// signs.
pub proof fn lemma_escaped_bytes(path: Seq<u8>, i: int)
    requires
        0 <= i < escaped(path).len(),
    ensures
        unreserved(escaped(path)[i]) || escaped(path)[i] == 0x25,
    decreases path.len(),
{
    if path.len() > 0 {
        let head = escaped(path.drop_last());
        if i < head.len() {
            lemma_escaped_bytes(path.drop_last(), i);
        } else {
            let p = piece(path.last());
            assert(escaped(path)[i] == p[i - head.len()]);
        }
    }
}

/// What a `file:` URI begins with.
pub open spec fn file_scheme() -> Seq<u8> {
    seq![0x66u8, 0x69, 0x6c, 0x65, 0x3a]
}

/// Some bytes, cut at every separator.
pub open spec fn cut(bytes: Seq<u8>, separator: u8) -> Seq<Seq<u8>>
    decreases bytes.len(),
{
    if bytes.len() == 0 {
        seq![Seq::empty()]
    } else {
        let rest = cut(bytes.drop_last(), separator);
        if bytes.last() == separator {
            rest.push(Seq::empty())
        } else {
            rest.drop_last().push(rest.last().push(bytes.last()))
        }
    }
}

/// A line without the carriage return that may end it.
pub open spec fn bare(line: Seq<u8>) -> Seq<u8> {
    if line.len() > 0 && line.last() == 0x0d {
        line.drop_last()
    } else {
        line
    }
}

/// The path a `file:` URI names, if it names one on this machine:
/// `file:/path` and `file:///path` do, and `file://host/path` is somebody
/// else's file whatever the host says.
pub open spec fn local_path(uri: Seq<u8>) -> Option<Seq<u8>> {
    if !file_scheme().is_prefix_of(uri) {
        None
    } else {
        let rest = uri.skip(5);
        if rest.len() >= 2 && rest[0] == 0x2f && rest[1] == 0x2f {
            if rest.len() >= 3 && rest[2] == 0x2f {
                Some(unescaped(rest.skip(2)))
            } else {
                None
            }
        } else {
            Some(unescaped(rest))
        }
    }
}

/// The path a line of a URI list names, if it names one on this machine. A
/// line starting with `#` is a comment.
pub open spec fn line_path(line: Seq<u8>) -> Option<Seq<u8>> {
    let line = bare(line);
    if line.len() == 0 || line[0] == 0x23 {
        None
    } else {
        local_path(line)
    }
}

/// The paths some lines of a URI list name.
pub open spec fn line_paths(lines: Seq<Seq<u8>>) -> Seq<Seq<u8>>
    decreases lines.len(),
{
    if lines.len() == 0 {
        Seq::empty()
    } else {
        match line_path(lines.last()) {
            Some(path) => line_paths(lines.drop_last()).push(path),
            None => line_paths(lines.drop_last()),
        }
    }
}

/// The paths a URI list names.
pub open spec fn listed_paths(uri_list: Seq<u8>) -> Seq<Seq<u8>> {
    line_paths(cut(uri_list, 0x0a))
}

/// The bytes of some paths.
pub open spec fn path_views(paths: Seq<Vec<u8>>) -> Seq<Seq<u8>> {
    paths.map_values(|path: Vec<u8>| path@)
}

/// The URI list that names some paths.
pub open spec fn uri_list_of(paths: Seq<Seq<u8>>) -> Seq<u8>
    decreases paths.len(),
{
    if paths.len() == 0 {
        Seq::empty()
    } else {
        uri_list_of(paths.drop_last()) + file_scheme() + seq![0x2fu8, 0x2f] + escaped(paths.last())
            + seq![0x0du8, 0x0a]
    }
}

/// What GNOME's file managers read for some paths.
pub open spec fn gnome_list_of(paths: Seq<Seq<u8>>) -> Seq<u8>
    decreases paths.len(),
{
    if paths.len() == 0 {
        seq![0x63u8, 0x6f, 0x70, 0x79]
    } else {
        gnome_list_of(paths.drop_last()) + seq![0x0au8] + file_scheme() + seq![0x2fu8, 0x2f]
            + escaped(paths.last())
    }
}

/// Some paths as the text of them, one per line.
pub open spec fn text_of_paths(paths: Seq<Seq<u8>>) -> Seq<u8>
    decreases paths.len(),
{
    if paths.len() == 0 {
        Seq::empty()
    } else {
        text_of_paths(paths.drop_last()) + paths.last() + seq![0x0au8]
    }
}

/// Appends some bytes to a buffer.
pub fn append(buffer: &mut Vec<u8>, bytes: &[u8])
    ensures
        final(buffer)@ == old(buffer)@ + bytes@,
{
    let mut i: usize = 0;
    assert(buffer@ =~= old(buffer)@ + bytes@.take(0));
    while i < bytes.len()
        invariant
            i <= bytes.len(),
            buffer@ == old(buffer)@ + bytes@.take(i as int),
        decreases bytes.len() - i,
    {
        buffer.push(bytes[i]);
        i += 1;
        assert(buffer@ =~= old(buffer)@ + bytes@.take(i as int));
    }
    assert(bytes@.take(i as int) =~= bytes@);
}

/// Appends `file://` to a buffer.
fn append_scheme(buffer: &mut Vec<u8>)
    ensures
        final(buffer)@ == old(buffer)@ + file_scheme() + seq![0x2fu8, 0x2f],
{
    buffer.push(0x66);
    buffer.push(0x69);
    buffer.push(0x6c);
    buffer.push(0x65);
    buffer.push(0x3a);
    buffer.push(0x2f);
    buffer.push(0x2f);
    assert(buffer@ =~= old(buffer)@ + file_scheme() + seq![0x2fu8, 0x2f]);
}

/// The path a `file:` URI names, if it names one on this machine.
fn path_of(uri: &[u8]) -> (path: Option<Vec<u8>>)
    ensures
        match path {
            Some(path) => local_path(uri@) == Some(path@),
            None => local_path(uri@) is None,
        },
{
    if uri.len() < 5 || uri[0] != 0x66 || uri[1] != 0x69 || uri[2] != 0x6c || uri[3] != 0x65
        || uri[4] != 0x3a {
        proof {
            if file_scheme().is_prefix_of(uri@) {
                let head = uri@.subrange(0, 5);
                assert(head[0] == 0x66 && head[1] == 0x69 && head[2] == 0x6c && head[3] == 0x65
                    && head[4] == 0x3a);
            }
        }
        return None;
    }
    assert(file_scheme() =~= uri@.subrange(0, 5));
    let ghost rest = uri@.skip(5);
    if uri.len() >= 7 && uri[5] == 0x2f && uri[6] == 0x2f {
        if uri.len() >= 8 && uri[7] == 0x2f {
            let path = vstd::slice::slice_subrange(uri, 7, uri.len());
            assert(path@ =~= rest.skip(2));
            Some(percent_decode(path))
        } else {
            None
        }
    } else {
        let path = vstd::slice::slice_subrange(uri, 5, uri.len());
        assert(path@ =~= rest);
        Some(percent_decode(path))
    }
}

/// The path a line of a URI list names, if it names one on this machine.
fn path_of_line(line: &[u8]) -> (path: Option<Vec<u8>>)
    ensures
        match path {
            Some(path) => line_path(line@) == Some(path@),
            None => line_path(line@) is None,
        },
{
    let end: usize = if line.len() > 0 && line[line.len() - 1] == 0x0d {
        line.len() - 1
    } else {
        line.len()
    };
    let kept = vstd::slice::slice_subrange(line, 0, end);
    assert(kept@ =~= bare(line@));
    if kept.len() == 0 || kept[0] == 0x23 {
        None
    } else {
        path_of(kept)
    }
}

proof fn lemma_cut(bytes: Seq<u8>, separator: u8)
    ensures
        cut(bytes, separator).len() > 0,
    decreases bytes.len(),
{
    if bytes.len() > 0 {
        lemma_cut(bytes.drop_last(), separator);
    }
}

/// The local paths a `text/uri-list` payload names.
///
/// Anything that is not a `file:` URI is skipped rather than refused: a
/// selection may name a web page and a file at once, and the file half is
/// still worth having.
pub fn paths(uri_list: &[u8]) -> (paths: Vec<Vec<u8>>)
    ensures
        path_views(paths@) == listed_paths(uri_list@),
{
    let mut paths: Vec<Vec<u8>> = Vec::new();
    let mut line: Vec<u8> = Vec::new();
    let ghost mut done: Seq<Seq<u8>> = Seq::empty();
    let mut i: usize = 0;
    assert(done.push(line@) =~= cut(uri_list@.take(0), 0x0a));
    assert(path_views(paths@) =~= line_paths(done));
    while i < uri_list.len()
        invariant
            i <= uri_list.len(),
            done.push(line@) == cut(uri_list@.take(i as int), 0x0a),
            path_views(paths@) == line_paths(done),
        decreases uri_list.len() - i,
    {
        let byte: u8 = uri_list[i];
        let ghost read = uri_list@.take(i as int);
        assert(uri_list@.take(i + 1).drop_last() =~= read);
        assert(done.push(line@).drop_last() =~= done);
        if byte == 0x0a {
            let ghost before = path_views(paths@);
            match path_of_line(line.as_slice()) {
                Some(path) => {
                    paths.push(path);
                    assert(path_views(paths@) =~= before.push(path@));
                },
                None => {},
            }
            proof {
                done = done.push(line@);
                assert(done.drop_last() =~= done.take(done.len() - 1));
            }
            line = Vec::new();
        } else {
            line.push(byte);
        }
        i += 1;
    }
    assert(uri_list@.take(i as int) =~= uri_list@);
    assert(done.push(line@).drop_last() =~= done);
    let ghost before = path_views(paths@);
    match path_of_line(line.as_slice()) {
        Some(path) => {
            paths.push(path);
            assert(path_views(paths@) =~= before.push(path@));
        },
        None => {},
    }
    paths
}

/// The `text/uri-list` naming paths as they are on this machine.
pub fn uri_list(paths: &[Vec<u8>]) -> (list: Vec<u8>)
    ensures
        list@ == uri_list_of(path_views(paths@)),
{
    let ghost all = path_views(paths@);
    let mut list: Vec<u8> = Vec::new();
    let mut i: usize = 0;
    assert(list@ =~= uri_list_of(all.take(0)));
    while i < paths.len()
        invariant
            i <= paths.len(),
            all == path_views(paths@),
            list@ == uri_list_of(all.take(i as int)),
        decreases paths.len() - i,
    {
        assert(all.take(i + 1).drop_last() =~= all.take(i as int));
        assert(all[i as int] == paths@[i as int]@);
        append_scheme(&mut list);
        escape(&mut list, paths[i].as_slice());
        list.push(0x0d);
        list.push(0x0a);
        i += 1;
        assert(list@ =~= uri_list_of(all.take(i as int)));
    }
    assert(all.take(i as int) =~= all);
    list
}

/// What GNOME's file managers read: what to do with the files, then the URIs,
/// newline-separated.
///
/// Always `copy`. A `cut` pasted here would move the one copy of the content
/// out of the spool, and the file it was cut from is on another machine, which
/// no paste is going to reach.
pub fn gnome_copied_files(paths: &[Vec<u8>]) -> (list: Vec<u8>)
    ensures
        list@ == gnome_list_of(path_views(paths@)),
{
    let ghost all = path_views(paths@);
    let mut list: Vec<u8> = Vec::new();
    list.push(0x63);
    list.push(0x6f);
    list.push(0x70);
    list.push(0x79);
    let mut i: usize = 0;
    assert(list@ =~= gnome_list_of(all.take(0)));
    while i < paths.len()
        invariant
            i <= paths.len(),
            all == path_views(paths@),
            list@ == gnome_list_of(all.take(i as int)),
        decreases paths.len() - i,
    {
        assert(all.take(i + 1).drop_last() =~= all.take(i as int));
        assert(all[i as int] == paths@[i as int]@);
        let ghost before = list@;
        list.push(0x0a);
        assert(list@ =~= before + seq![0x0au8]);
        append_scheme(&mut list);
        escape(&mut list, paths[i].as_slice());
        i += 1;
        assert(list@ =~= gnome_list_of(all.take(i as int)));
    }
    assert(all.take(i as int) =~= all);
    list
}

/// The paths as the text of them: what a terminal or an editor gets out of
/// pasting a copied file.
pub fn as_text(paths: &[Vec<u8>]) -> (text: Vec<u8>)
    ensures
        text@ == text_of_paths(path_views(paths@)),
{
    let ghost all = path_views(paths@);
    let mut text: Vec<u8> = Vec::new();
    let mut i: usize = 0;
    assert(text@ =~= text_of_paths(all.take(0)));
    while i < paths.len()
        invariant
            i <= paths.len(),
            all == path_views(paths@),
            text@ == text_of_paths(all.take(i as int)),
        decreases paths.len() - i,
    {
        assert(all.take(i + 1).drop_last() =~= all.take(i as int));
        assert(all[i as int] == paths@[i as int]@);
        append(&mut text, paths[i].as_slice());
        text.push(0x0a);
        i += 1;
        assert(text@ =~= text_of_paths(all.take(i as int)));
    }
    assert(all.take(i as int) =~= all);
    text
}

proof fn lemma_cut_more(bytes: Seq<u8>, more: Seq<u8>, separator: u8)
    requires
        !more.contains(separator),
    ensures
        cut(bytes + more, separator) == cut(bytes, separator).drop_last().push(
            cut(bytes, separator).last() + more,
        ),
    decreases more.len(),
{
    lemma_cut(bytes, separator);
    let before = cut(bytes, separator);
    if more.len() == 0 {
        assert(bytes + more =~= bytes);
        assert(before.last() + more =~= before.last());
        assert(before.drop_last().push(before.last()) =~= before);
    } else {
        let less = more.drop_last();
        assert forall|i: int| 0 <= i < less.len() implies less[i] != separator by {
            assert(more[i] != separator);
        }
        lemma_cut_more(bytes, less, separator);
        assert((bytes + more).drop_last() =~= bytes + less);
        assert(more[more.len() - 1] != separator);
        assert((bytes + more).last() == more.last());
        let mid = before.drop_last().push(before.last() + less);
        assert(mid.drop_last() =~= before.drop_last());
        assert(mid.last().push(more.last()) =~= before.last() + more);
    }
}

proof fn lemma_line_paths_push(lines: Seq<Seq<u8>>, line: Seq<u8>)
    ensures
        line_paths(lines.push(line)) == match line_path(line) {
            Some(path) => line_paths(lines).push(path),
            None => line_paths(lines),
        },
{
    assert(lines.push(line).drop_last() =~= lines);
}

/// The URI list of some absolute paths names those paths and no others: what
/// is copied on one side of the list is what is read on the other.
pub proof fn a_uri_list_names_the_paths_it_was_made_of(paths: Seq<Seq<u8>>)
    requires
        forall|i: int| 0 <= i < paths.len() ==> (#[trigger] paths[i]).len() > 0 && paths[i][0] == 0x2f,
    ensures
        listed_paths(uri_list_of(paths)) == paths,
    decreases paths.len(),
{
    lemma_uri_list(paths);
    let list = cut(uri_list_of(paths), 0x0a);
    assert(list.drop_last().push(list.last()) =~= list);
    lemma_line_paths_push(list.drop_last(), list.last());
}

proof fn lemma_uri_list(paths: Seq<Seq<u8>>)
    requires
        forall|i: int| 0 <= i < paths.len() ==> (#[trigger] paths[i]).len() > 0 && paths[i][0] == 0x2f,
    ensures
        cut(uri_list_of(paths), 0x0a).len() > 0,
        cut(uri_list_of(paths), 0x0a).last() == Seq::<u8>::empty(),
        line_paths(cut(uri_list_of(paths), 0x0a).drop_last()) == paths,
    decreases paths.len(),
{
    let list = uri_list_of(paths);
    if paths.len() == 0 {
        assert(cut(list, 0x0a).drop_last() =~= Seq::<Seq<u8>>::empty());
        assert(paths =~= Seq::<Seq<u8>>::empty());
    } else {
        let path = paths.last();
        assert(paths[paths.len() - 1] == path);
        lemma_uri_list(paths.drop_last());
        let head = uri_list_of(paths.drop_last());
        let lines = cut(head, 0x0a);
        let line = file_scheme() + seq![0x2fu8, 0x2f] + escaped(path) + seq![0x0du8];
        assert(list =~= (head + line).push(0x0a));
        assert(!line.contains(0x0a)) by {
            assert forall|i: int| 0 <= i < line.len() implies line[i] != 0x0a by {
                if 7 <= i < 7 + escaped(path).len() {
                    lemma_escaped_bytes(path, i - 7);
                    assert(line[i] == escaped(path)[i - 7]);
                }
            }
        }
        lemma_cut_more(head, line, 0x0a);
        assert(list.drop_last() =~= head + line);
        assert(Seq::<u8>::empty() + line =~= line);
        let done = lines.drop_last().push(line);
        assert(cut(list, 0x0a) == done.push(Seq::empty()));
        assert(cut(list, 0x0a).drop_last() =~= done);
        lemma_line_paths_push(lines.drop_last(), line);
        lemma_line(path);
        assert(paths.drop_last().push(path) =~= paths);
    }
}

proof fn lemma_line(path: Seq<u8>)
    requires
        path.len() > 0,
        path[0] == 0x2f,
    ensures
        line_path(file_scheme() + seq![0x2fu8, 0x2f] + escaped(path) + seq![0x0du8]) == Some(path),
{
    let uri = file_scheme() + seq![0x2fu8, 0x2f] + escaped(path);
    let line = uri + seq![0x0du8];
    assert(bare(line) =~= uri);
    assert(file_scheme() =~= uri.subrange(0, 5));
    lemma_escaped_first(path);
    assert(escaped(path)[0] == 0x2f);
    assert(uri.skip(5).skip(2) =~= escaped(path));
    escaping_is_undone(path);
}

/// What GNOME's file managers read for some absolute paths names those paths
/// and no others, as the URI list of them does.
pub proof fn a_gnome_list_names_the_paths_it_was_made_of(paths: Seq<Seq<u8>>)
    requires
        forall|i: int| 0 <= i < paths.len() ==> (#[trigger] paths[i]).len() > 0 && paths[i][0] == 0x2f,
    ensures
        listed_paths(gnome_list_of(paths)) == paths,
    decreases paths.len(),
{
    let list = gnome_list_of(paths);
    if paths.len() == 0 {
        assert(Seq::<u8>::empty() + list =~= list);
        lemma_cut_more(Seq::empty(), list, 0x0a);
        let lines = cut(Seq::<u8>::empty(), 0x0a);
        assert(lines.drop_last() =~= Seq::<Seq<u8>>::empty());
        lemma_line_paths_push(Seq::empty(), list);
        assert(!file_scheme().is_prefix_of(list));
        assert(paths =~= Seq::<Seq<u8>>::empty());
    } else {
        let path = paths.last();
        assert(paths[paths.len() - 1] == path);
        a_gnome_list_names_the_paths_it_was_made_of(paths.drop_last());
        let head = gnome_list_of(paths.drop_last());
        let line = file_scheme() + seq![0x2fu8, 0x2f] + escaped(path);
        assert(list =~= head.push(0x0a) + line);
        assert forall|i: int| 0 <= i < line.len() implies line[i] != 0x0a && line[i] != 0x0d by {
            if 7 <= i {
                lemma_escaped_bytes(path, i - 7);
                assert(line[i] == escaped(path)[i - 7]);
            }
        }
        lemma_cut_more(head.push(0x0a), line, 0x0a);
        assert(head.push(0x0a).drop_last() =~= head);
        let done = cut(head, 0x0a);
        assert(done.push(Seq::empty()).drop_last() =~= done);
        assert(Seq::<u8>::empty() + line =~= line);
        lemma_line_paths_push(done, line);
        lemma_line(path);
        assert(bare(line + seq![0x0du8]) =~= line);
        assert(line[line.len() - 1] != 0x0d);
        assert(bare(line) == line);
        assert(paths.drop_last().push(path) =~= paths);
    }
}

/// Whether a line of a list names no file here: it is empty, a comment, the URI
/// of something that is no file, or the URI of a file on another host.
pub open spec fn names_nothing(line: Seq<u8>) -> bool {
    ||| line.len() == 0
    ||| line[0] == 0x23
    ||| line.len() < 5
    ||| line.take(5) != seq![0x66u8, 0x69, 0x6c, 0x65, 0x3a]
    ||| line.len() == 7 && line[5] == 0x2f && line[6] == 0x2f
    ||| line.len() > 7 && line[5] == 0x2f && line[6] == 0x2f && line[7] != 0x2f
}

/// A URI list is read line by line: another line adds the path it names, with
/// one slash or three, and with or without a carriage return at its end; and a
/// line that names nothing here adds nothing.
pub proof fn a_uri_list_is_read_line_by_line(list: Seq<u8>, path: Seq<u8>, line: Seq<u8>)
    requires
        path.len() > 0,
        path[0] == 0x2f,
        !line.contains(0x0a),
        names_nothing(line),
        line.len() == 0 || line.last() != 0x0d,
    ensures
        ({
            let scheme = seq![0x66u8, 0x69, 0x6c, 0x65, 0x3a];
            let slashes = seq![0x2fu8, 0x2f];
            let next = list.push(0x0a);
            &&& listed_paths(next + (scheme + slashes + escaped(path))) == listed_paths(list).push(
                path,
            )
            &&& listed_paths(next + (scheme + slashes + escaped(path)).push(0x0d))
                == listed_paths(list).push(path)
            &&& path.len() < 2 || path[1] != 0x2f ==> listed_paths(next + (scheme + escaped(path)))
                == listed_paths(list).push(path)
            &&& listed_paths(next + line) == listed_paths(list)
            &&& listed_paths(next + line.push(0x0d)) == listed_paths(list)
            &&& listed_paths(Seq::empty()) == Seq::<Seq<u8>>::empty()
        }),
{
    let scheme = seq![0x66u8, 0x69, 0x6c, 0x65, 0x3a];
    let slashes = seq![0x2fu8, 0x2f];
    assert(scheme == file_scheme());
    let three = scheme + slashes + escaped(path);
    let one = scheme + escaped(path);
    assert forall|i: int| 0 <= i < escaped(path).len() implies escaped(path)[i] != 0x0a
        && escaped(path)[i] != 0x0d by {
        lemma_escaped_bytes(path, i);
    }
    assert forall|i: int| 0 <= i < three.len() implies three[i] != 0x0a && three[i] != 0x0d by {
        if i >= 7 {
            assert(three[i] == escaped(path)[i - 7]);
        }
    }
    assert forall|i: int| 0 <= i < one.len() implies one[i] != 0x0a && one[i] != 0x0d by {
        if i >= 5 {
            assert(one[i] == escaped(path)[i - 5]);
        }
    }
    lemma_listed_more(list, three);
    lemma_listed_more(list, three.push(0x0d));
    lemma_listed_more(list, one);
    lemma_listed_more(list, line);
    assert(!line.push(0x0d).contains(0x0a)) by {
        assert forall|i: int| 0 <= i < line.push(0x0d).len() implies line.push(0x0d)[i] != 0x0a by {
            if i < line.len() {
                assert(line.contains(line[i]));
            }
        }
    }
    lemma_listed_more(list, line.push(0x0d));
    lemma_line(path);
    assert(three + seq![0x0du8] =~= three.push(0x0d));
    assert(bare(three.push(0x0d)) =~= three);
    assert(three[three.len() - 1] != 0x0d);
    assert(bare(three) == three);
    assert(bare(line.push(0x0d)) =~= line);
    assert(bare(line) == line);
    assert(line_path(line) is None) by {
        if line.len() > 0 && file_scheme().is_prefix_of(line) {
            assert(line.take(5) =~= line.subrange(0, 5));
            let rest = line.skip(5);
            assert(line.len() >= 6 ==> rest[0] == line[5]);
            assert(line.len() >= 7 ==> rest[1] == line[6]);
            assert(line.len() >= 8 ==> rest[2] == line[7]);
        }
    }
    assert(line_path(line.push(0x0d)) is None);
    assert(line_path(one) == Some(path) || path.len() >= 2 && path[1] == 0x2f) by {
        assert(one[one.len() - 1] != 0x0d);
        assert(bare(one) == one);
        if path.len() < 2 || path[1] != 0x2f {
            lemma_one_slash(path);
        }
    }
    assert(cut(Seq::<u8>::empty(), 0x0a).drop_last() =~= Seq::<Seq<u8>>::empty());
    assert(line_paths(cut(Seq::<u8>::empty(), 0x0a).drop_last()) == Seq::<Seq<u8>>::empty());
}

proof fn lemma_one_slash(path: Seq<u8>)
    requires
        path.len() > 0,
        path[0] == 0x2f,
        path.len() < 2 || path[1] != 0x2f,
    ensures
        local_path(file_scheme() + escaped(path)) == Some(path),
{
    let uri = file_scheme() + escaped(path);
    assert(file_scheme() =~= uri.subrange(0, 5));
    assert(uri.skip(5) =~= escaped(path));
    escaping_is_undone(path);
    lemma_escaped_first(path);
    let more = path.skip(1);
    if more.len() > 0 {
        lemma_escaped_first(more);
        assert(more[0] == path[1]);
        assert(escaped(path)[1] == piece(path[1])[0]);
    } else {
        assert(more =~= Seq::<u8>::empty());
    }
}

proof fn lemma_listed_more(list: Seq<u8>, line: Seq<u8>)
    requires
        !line.contains(0x0a),
    ensures
        listed_paths(list.push(0x0a) + line) == match line_path(line) {
            Some(path) => listed_paths(list).push(path),
            None => listed_paths(list),
        },
{
    lemma_cut_more(list.push(0x0a), line, 0x0a);
    assert(list.push(0x0a).drop_last() =~= list);
    let done = cut(list, 0x0a);
    assert(done.push(Seq::empty()).drop_last() =~= done);
    assert(Seq::<u8>::empty() + line =~= line);
    lemma_line_paths_push(done, line);
}

/// The text of some paths is each of them on a line of its own, in order.
pub proof fn the_text_of_paths_is_one_to_a_line(paths: Seq<Seq<u8>>)
    requires
        forall|i: int| 0 <= i < paths.len() ==> !(#[trigger] paths[i]).contains(0x0a),
    ensures
        cut(text_of_paths(paths), 0x0a) == paths.push(Seq::empty()),
    decreases paths.len(),
{
    if paths.len() == 0 {
        assert(cut(text_of_paths(paths), 0x0a) =~= paths.push(Seq::empty()));
    } else {
        let rest = paths.drop_last();
        assert forall|i: int| 0 <= i < rest.len() implies !(#[trigger] rest[i]).contains(0x0a) by {
            assert(rest[i] == paths[i]);
        }
        the_text_of_paths_is_one_to_a_line(rest);
        let head = text_of_paths(rest);
        let path = paths.last();
        assert(paths[paths.len() - 1] == path);
        lemma_cut_more(head, path, 0x0a);
        let all = text_of_paths(paths);
        assert(all.drop_last() =~= head + path);
        assert(all.last() == 0x0a);
        assert(rest.push(Seq::empty()).drop_last() =~= rest);
        assert(Seq::<u8>::empty() + path =~= path);
        assert(rest.push(path) =~= paths);
    }
}

/// Cutting takes out the separators and nothing else: what is cut, put together
/// with the separators between, is what there was, and no part of it holds one.
pub proof fn cutting_takes_out_the_separators(bytes: Seq<u8>, separator: u8)
    ensures
        cut(bytes, separator).len() > 0,
        put_together(cut(bytes, separator), separator) == bytes,
        forall|i: int|
            0 <= i < cut(bytes, separator).len() ==> !(#[trigger] cut(
                bytes,
                separator,
            )[i]).contains(separator),
    decreases bytes.len(),
{
    let all = cut(bytes, separator);
    if bytes.len() == 0 {
        assert(put_together(all, separator) =~= bytes);
    } else {
        let rest = bytes.drop_last();
        cutting_takes_out_the_separators(rest, separator);
        let before = cut(rest, separator);
        if bytes.last() == separator {
            assert(all.drop_last() =~= before);
            assert(put_together(all, separator) =~= bytes);
            assert forall|i: int| 0 <= i < all.len() implies !(#[trigger] all[i]).contains(
                separator,
            ) by {
                if i < before.len() {
                    assert(all[i] == before[i]);
                }
            }
        } else {
            let less = before.drop_last();
            assert(all.drop_last() =~= less);
            assert(put_together(all, separator) =~= put_together(before, separator).push(
                bytes.last(),
            ));
            assert(rest.push(bytes.last()) =~= bytes);
            assert forall|i: int| 0 <= i < all.len() implies !(#[trigger] all[i]).contains(
                separator,
            ) by {
                if i < less.len() {
                    assert(all[i] == before[i]);
                } else {
                    let last = before.last();
                    assert(before[before.len() - 1] == last);
                    let whole = last.push(bytes.last());
                    assert(all[i] == whole);
                    if whole.contains(separator) {
                        let k = choose|k: int| 0 <= k < whole.len() && whole[k] == separator;
                        assert(last[k] == separator);
                        assert(last.contains(separator));
                    }
                }
            }
        }
    }
}

/// Some parts put together, with a separator between each two.
pub open spec fn put_together(parts: Seq<Seq<u8>>, separator: u8) -> Seq<u8>
    decreases parts.len(),
{
    if parts.len() == 0 {
        Seq::empty()
    } else if parts.len() == 1 {
        parts[0]
    } else {
        put_together(parts.drop_last(), separator).push(separator) + parts.last()
    }
}


/// Letters, digits, `-`, `.`, `_`, `~` and the separator stand in a URI as they
/// are; any other byte stands as a percent sign and two digits.
pub proof fn which_bytes_stand_for_themselves(byte: u8)
    ensures
        ({
            let c = byte as char;
            let plain = 'a' <= c <= 'z' || 'A' <= c <= 'Z' || '0' <= c <= '9' || c == '-' || c
                == '.' || c == '_' || c == '~' || c == '/';
            let out = escaped(seq![byte]);
            &&& plain ==> out == seq![byte]
            &&& !plain ==> out.len() == 3 && out[0] == '%' as u8
        }),
{
    let one = seq![byte];
    assert(one.drop_last() =~= Seq::<u8>::empty());
    assert(escaped(one.drop_last()) == Seq::<u8>::empty());
    assert(escaped(one) =~= piece(byte));
}

/// An escape is undone whichever case its digits are in, and a percent sign that
/// no two digits follow stands for itself.
pub proof fn an_escape_may_be_in_either_case(high: u8, low: u8, upper: bool)
    requires
        high < 16,
        low < 16,
    ensures
        ({
            let digits = if upper {
                seq!['0', '1', '2', '3', '4', '5', '6', '7', '8', '9', 'A', 'B', 'C', 'D', 'E', 'F']
            } else {
                seq!['0', '1', '2', '3', '4', '5', '6', '7', '8', '9', 'a', 'b', 'c', 'd', 'e', 'f']
            };
            unescaped(
                seq!['%' as u8, digits[high as int] as u8, digits[low as int] as u8],
            ) == seq![(high * 16 + low) as u8]
        }),
        unescaped(seq!['%' as u8]) == seq!['%' as u8],
{
    let digits = if upper {
        seq!['0', '1', '2', '3', '4', '5', '6', '7', '8', '9', 'A', 'B', 'C', 'D', 'E', 'F']
    } else {
        seq!['0', '1', '2', '3', '4', '5', '6', '7', '8', '9', 'a', 'b', 'c', 'd', 'e', 'f']
    };
    assert forall|value: u8| value < 16 implies digit_value(
        #[trigger] digits[value as int] as u8,
    ) == Some(value) by {
        lemma_digit(value, upper);
    }
    let t = seq!['%' as u8, digits[high as int] as u8, digits[low as int] as u8];
    assert(t.skip(3) =~= Seq::<u8>::empty());
    assert(unescaped(t.skip(3)) == Seq::<u8>::empty());
    assert(unescaped(t) =~= seq![(high * 16 + low) as u8]);
    let half = seq!['%' as u8];
    assert(half.skip(1) =~= Seq::<u8>::empty());
    assert(unescaped(half.skip(1)) == Seq::<u8>::empty());
    assert(unescaped(half) =~= half);
}

/// A base16 digit is worth its place among them.
proof fn lemma_digit(value: u8, upper: bool)
    requires
        value < 16,
    ensures
        ({
            let digits = if upper {
                seq!['0', '1', '2', '3', '4', '5', '6', '7', '8', '9', 'A', 'B', 'C', 'D', 'E', 'F']
            } else {
                seq!['0', '1', '2', '3', '4', '5', '6', '7', '8', '9', 'a', 'b', 'c', 'd', 'e', 'f']
            };
            digit_value(digits[value as int] as u8) == Some(value)
        }),
{
}

} // verus!
