//! What holds of the store whatever it is asked to do.

use vstd::prelude::*;
use vstd::utf8::*;
use crate::batch::{changed_paths, changes_for, lemma_changed_paths};
use crate::encoding::{
    byte_offset, lemma_after_newline_is_boundary, lemma_between_boundaries, lemma_decode_concat,
    lemma_encode_len, lemma_encode_one, lemma_encode_split, lemma_offset_is_boundary,
};
use crate::error::Error;
use crate::file::{
    apply_change, apply_changes, edit_range, line_range, line_text, position_offset, splice,
    text_between, Change, FileView,
};
use crate::store::{after_group, after_groups, grouped, with_loaded, with_written};
use crate::text_grid::{lemma_newline_ends, line_index, line_starts, newline_ends};

verus! {

/// The line starts of a text begin with 0, end with its length, never
/// decrease, and each is a character boundary.
pub proof fn law_line_starts(text: Seq<char>)
    ensures
        line_starts(encode_utf8(text)).len() >= 2,
        line_starts(encode_utf8(text))[0] == 0,
        line_starts(encode_utf8(text)).last() == encode_utf8(text).len(),
        forall|j: int, k: int|
            0 <= j <= k < line_starts(encode_utf8(text)).len() ==> #[trigger] line_starts(
                encode_utf8(text),
            )[j] <= #[trigger] line_starts(encode_utf8(text))[k],
        forall|k: int|
            0 <= k < line_starts(encode_utf8(text)).len() ==> 0 <= #[trigger] line_starts(
                encode_utf8(text),
            )[k] <= encode_utf8(text).len() && is_char_boundary(
                encode_utf8(text),
                line_starts(encode_utf8(text))[k],
            ),
{
    let bytes = encode_utf8(text);
    let n = bytes.len() as int;
    let ends = newline_ends(bytes, n);
    let starts = line_starts(bytes);
    lemma_newline_ends(bytes, n);
    encode_utf8_valid_utf8(text);
    is_char_boundary_start_end_of_seq(bytes);
    assert forall|k: int| 0 <= k < starts.len() implies is_char_boundary(
        bytes,
        #[trigger] starts[k],
    ) && 0 <= starts[k] <= n by {
        if 0 < k < starts.len() - 1 {
            assert(starts[k] == ends[k - 1]);
            lemma_after_newline_is_boundary(bytes, ends[k - 1] - 1);
        }
    }
    assert forall|j: int, k: int| 0 <= j <= k < starts.len() implies #[trigger] starts[j]
        <= #[trigger] starts[k] by {
        if 0 < j && k < starts.len() - 1 && j < k {
            assert(ends[j - 1] < ends[k - 1]);
        }
    }
}

/// Where the text has at most `u32::MAX` bytes, a line is there exactly if
/// its number is below the number of line starts less one, and it runs from
/// its start to the next. A line beyond the last is never there, whatever
/// the size of the text.
pub proof fn law_line_range(text: Seq<char>, line: int)
    ensures
        !(0 <= line < line_starts(encode_utf8(text)).len() - 1) ==> line_range(text, line)
            is None && line_text(text, line) is None,
        encode_utf8(text).len() <= u32::MAX && 0 <= line < line_starts(encode_utf8(text)).len()
            - 1 ==> line_range(text, line) == Some(
            (line_starts(encode_utf8(text))[line], line_starts(encode_utf8(text))[line + 1]),
        ),
{
    let bytes = encode_utf8(text);
    let starts = line_starts(bytes);
    law_line_starts(text);
    if bytes.len() <= u32::MAX && 0 <= line < starts.len() - 1 {
        assert(line_index(bytes)[line] == starts[line]);
        assert(line_index(bytes)[line + 1] == starts[line + 1]);
    }
}

/// A line and column that are in the text stand at a character boundary of
/// its encoding.
pub proof fn law_position_is_boundary(text: Seq<char>, line: int, col: int)
    requires
        position_offset(text, line, col) is Some,
    ensures
        0 <= position_offset(text, line, col)->0 <= encode_utf8(text).len(),
        is_char_boundary(encode_utf8(text), position_offset(text, line, col)->0),
{
    let bytes = encode_utf8(text);
    let (start, end) = line_range(text, line)->0;
    let chars = text_between(text, start, end);
    encode_utf8_valid_utf8(text);
    lemma_between_boundaries(bytes, start, end);
    decode_utf8_encode_utf8(bytes.subrange(start, end));
    lemma_offset_is_boundary(bytes, start, chars, col);
}

/// An edit that names its range by a length in characters, and one that
/// names the same range by its end, give the same text: where the range up
/// to the end of the span is in the text and holds `len` characters, the
/// range of the span with that length is the same range.
pub proof fn law_length_or_end(text: Seq<char>, by_length: Change, by_end: Change)
    requires
        by_length is ReplaceText,
        by_end is ReplaceText,
        by_length->span == by_end->span,
        by_length->ReplaceText_text@ == by_end->ReplaceText_text@,
        by_end->len is None,
        by_length->len is Some,
        match edit_range(text, by_end->span, None) {
            Some((start, end)) => start <= end && by_length->len->0 == text_between(
                text,
                start,
                end,
            ).len(),
            None => false,
        },
    ensures
        edit_range(text, by_length->span, by_length->len) == edit_range(text, by_end->span, None),
        apply_change(text, &by_length) == apply_change(text, &by_end),
{
    let span = by_end->span;
    let bytes = encode_utf8(text);
    let total = bytes.len() as int;
    let (start, end) = edit_range(text, span, None)->0;
    law_position_is_boundary(text, span.start.0.0 as int, span.start.1.0 as int);
    law_position_is_boundary(text, span.end.0.0 as int, span.end.1.0 as int);
    encode_utf8_valid_utf8(text);
    is_char_boundary_start_end_of_seq(bytes);
    let rest_bytes = bytes.subrange(start, total);
    let rest = text_between(text, start, total);
    let range_bytes = bytes.subrange(start, end);
    lemma_between_boundaries(bytes, start, end);
    lemma_between_boundaries(bytes, start, total);
    decode_utf8_split(rest_bytes, end - start);
    assert(rest_bytes.subrange(0, end - start) =~= range_bytes);
    decode_utf8_encode_utf8(range_bytes);
    let n = decode_utf8(range_bytes).len() as int;
    assert(rest.subrange(0, n) =~= decode_utf8(range_bytes));
    assert(byte_offset(rest, n) == Some(end - start));
}

/// A file that was just loaded is not changed. After a batch of changes
/// that could all be applied it is changed. Once it is marked as saved, or
/// was written without error, it is not changed.
pub proof fn law_dirty_tracking<U>(
    files: Map<Seq<char>, FileView<U>>,
    path: Seq<char>,
    text: String,
    changes: Seq<&Change>,
)
    ensures
        !FileView::<U>::loaded(text@).changed,
        !with_loaded(files, path, Ok(text))[path].changed,
        files.contains_key(path) && files[path].accepts(changes) ==> files[path].after(
            changes,
        ).changed,
        FileView::<U>::loaded(text@).accepts(changes) ==> FileView::<U>::loaded(text@).after(
            changes,
        ).changed,
        files.contains_key(path) ==> !files[path].saved().changed,
        files.contains_key(path) ==> !with_written(files, path, Ok(()))[path].changed,
{
}

/// After a batch of changes that could all be applied, an edit of a range
/// or a new text for the whole file alike, the file has no user data,
/// whatever was set before.
pub proof fn law_user_data_invalidation<U>(file: FileView<U>, changes: Seq<&Change>)
    requires
        file.accepts(changes),
    ensures
        file.after(changes).user_data is None,
        file.after(changes).text == apply_changes(file.text, changes, changes.len() as int).0,
{
}

/// Changes are applied in the order given, each to the text that the ones
/// before it left.
pub proof fn law_changes_in_order(text: Seq<char>, changes: Seq<&Change>, n: int)
    requires
        0 <= n < changes.len(),
        apply_changes(text, changes, n).1 == n,
    ensures
        apply_changes(text, changes, n + 1) == match apply_change(
            apply_changes(text, changes, n).0,
            changes[n],
        ) {
            Some(next) => (next, n + 1),
            None => (apply_changes(text, changes, n).0, n),
        },
{
}

/// Two changes to one file in one batch: the second is applied to the text
/// that the first has made.
pub proof fn law_second_change_sees_first(text: Seq<char>, first: &Change, second: &Change)
    requires
        apply_change(text, first) is Some,
        apply_change(apply_change(text, first)->0, second) is Some,
    ensures
        apply_changes(text, seq![first, second], 2) == (
            apply_change(apply_change(text, first)->0, second)->0,
            2int,
        ),
{
    let changes = seq![first, second];
    assert(apply_changes(text, changes, 0) == (text, 0int));
    assert(apply_changes(text, changes, 1) == (apply_change(text, first)->0, 1int));
}

/// Where the changes of a batch for one file come from: `from[k]` is the
/// place in the batch of the `k`-th change for `path`. The places ascend, so
/// the changes for a file keep the order that they have in the batch, and
/// every change for `path` is among them.
pub proof fn law_group_keeps_order(changes: Seq<Change>, path: Seq<char>, n: int) -> (from: Seq<
    int,
>)
    requires
        0 <= n <= changes.len(),
    ensures
        from.len() == changes_for(changes, path, n).len(),
        forall|k: int|
            0 <= k < from.len() ==> 0 <= #[trigger] from[k] < n && changes[from[k]].path() == path
                && *changes_for(changes, path, n)[k] == changes[from[k]],
        forall|j: int, k: int| 0 <= j < k < from.len() ==> from[j] < from[k],
        forall|i: int|
            0 <= i < n && (#[trigger] changes[i]).path() == path ==> exists|k: int|
                0 <= k < from.len() && #[trigger] from[k] == i,
    decreases n,
{
    if n == 0 {
        Seq::empty()
    } else {
        let before = law_group_keeps_order(changes, path, n - 1);
        if changes[n - 1].path() == path {
            let from = before.push(n - 1);
            assert forall|i: int| 0 <= i < n && (#[trigger] changes[i]).path() == path implies exists|
                k: int,
            |
                0 <= k < from.len() && #[trigger] from[k] == i by {
                if i < n - 1 {
                    let k = choose|k: int| 0 <= k < before.len() && #[trigger] before[k] == i;
                    assert(from[k] == i);
                } else {
                    assert(from[before.len() as int] == i);
                }
            }
            from
        } else {
            before
        }
    }
}

/// After a batch that went through, every file that the batch has changes
/// for is held, is changed, and has no user data.
pub proof fn law_batch_marks_files<U>(
    files: Map<Seq<char>, FileView<U>>,
    groups: Seq<(Seq<char>, Seq<&Change>)>,
    loaded: Seq<Result<String, Error>>,
    n: int,
    g: int,
)
    requires
        forall|h: int, k: int| 0 <= h < k < groups.len() ==> groups[h].0 != groups[k].0,
        0 <= g < n <= groups.len(),
        after_groups(files, groups, loaded, n).1 is Ok,
    ensures
        after_groups(files, groups, loaded, n).0.contains_key(groups[g].0),
        after_groups(files, groups, loaded, n).0[groups[g].0].changed,
        after_groups(files, groups, loaded, n).0[groups[g].0].user_data is None,
    decreases n,
{
    let (reached, r) = after_groups(files, groups, loaded, n - 1);
    assert(r is Ok);
    let (now, _) = after_group(reached, groups[n - 1].0, groups[n - 1].1, loaded[n - 1]);
    if g < n - 1 {
        law_batch_marks_files(files, groups, loaded, n - 1, g);
        assert(groups[g].0 != groups[n - 1].0);
    }
}

/// Replacing a range between two character boundaries leaves the
/// characters before the range, then the new text, then the characters
/// after the range.
pub proof fn law_splice(text: Seq<char>, start: int, end: int, with: Seq<char>)
    requires
        is_char_boundary(encode_utf8(text), start),
        is_char_boundary(encode_utf8(text), end),
        0 <= start <= encode_utf8(text).len(),
        0 <= end <= encode_utf8(text).len(),
    ensures
        splice(text, start, end, with) == text_between(text, 0, start) + with + text_between(
            text,
            end,
            encode_utf8(text).len() as int,
        ),
        text == text_between(text, 0, start) + text_between(
            text,
            start,
            encode_utf8(text).len() as int,
        ),
{
    let bytes = encode_utf8(text);
    let total = bytes.len() as int;
    encode_utf8_valid_utf8(text);
    encode_utf8_valid_utf8(with);
    encode_utf8_decode_utf8(text);
    encode_utf8_decode_utf8(with);
    valid_utf8_split(bytes, start);
    valid_utf8_split(bytes, end);
    lemma_decode_concat(bytes.subrange(0, start), encode_utf8(with));
    lemma_decode_concat(bytes.subrange(0, start) + encode_utf8(with), bytes.subrange(end, total));
    lemma_decode_concat(bytes.subrange(0, start), bytes.subrange(start, total));
    assert(bytes.subrange(0, start) + bytes.subrange(start, total) =~= bytes);
}

/// After a batch that went through, the file of every change in it is held,
/// is changed, and has no user data.
pub proof fn law_batch_marks_changed<U>(
    files: Map<Seq<char>, FileView<U>>,
    changes: Seq<Change>,
    loaded: Seq<Result<String, Error>>,
    i: int,
)
    requires
        0 <= i < changes.len(),
        after_groups(files, grouped(changes), loaded, grouped(changes).len() as int).1 is Ok,
    ensures
        ({
            let now = after_groups(files, grouped(changes), loaded, grouped(changes).len() as int);
            &&& now.0.contains_key(changes[i].path())
            &&& now.0[changes[i].path()].changed
            &&& now.0[changes[i].path()].user_data is None
        }),
{
    let n = changes.len() as int;
    let groups = grouped(changes);
    let paths = changed_paths(changes, n);
    lemma_changed_paths(changes, n);
    assert(paths.contains(changes[i].path()));
    let g = choose|g: int| 0 <= g < paths.len() && paths[g] == changes[i].path();
    assert(groups[g].0 == changes[i].path());
    law_batch_marks_files(files, groups, loaded, groups.len() as int, g);
}

/// The newline character is encoded as the newline byte, and as nothing else
/// is: a character of a text is a newline exactly if the byte at its offset
/// is the newline byte.
pub proof fn law_newline_byte(text: Seq<char>, k: int)
    requires
        0 <= k < text.len(),
    ensures
        0 <= byte_offset(text, k)->0 < encode_utf8(text).len(),
        text[k] == '\n' <==> encode_utf8(text)[byte_offset(text, k)->0] == 0x0Au8,
{
    let before = text.subrange(0, k);
    let rest = text.subrange(k, text.len() as int);
    let one = seq![text[k]];
    lemma_encode_split(text, k);
    lemma_encode_len(rest);
    encode_utf8_first_scalar(rest);
    assert(rest[0] == text[k]);
    assert(encode_utf8(text)[encode_utf8(before).len() as int] == encode_utf8(rest)[0]);
    let first = encode_utf8(rest)[0];
    if text[k] == '\n' {
        assert((10u32 & 0x7F) as u8 == 10u8) by (bit_vector);
        assert('\n' as u32 == 10u32);
    }
    if first == 0x0Au8 {
        assert((0x0Au8 & 0x7F) as u32 == 10u32) by (bit_vector);
        assert(decode_first_scalar(encode_utf8(rest)) == 10u32);
        char_u32_cast(text[k], 10u32);
    }
}

/// The first `n` lines of `text`, one after the other.
pub open spec fn lines_joined(text: Seq<char>, n: int) -> Seq<char>
    decreases n,
{
    if n <= 0 {
        Seq::empty()
    } else {
        lines_joined(text, n - 1) + line_text(text, n - 1)->0
    }
}

/// The lines of a text of at most `u32::MAX` bytes, one after the other,
/// make up the text.
pub proof fn law_lines_make_the_text(text: Seq<char>, n: int)
    requires
        encode_utf8(text).len() <= u32::MAX,
        0 <= n <= line_starts(encode_utf8(text)).len() - 1,
    ensures
        lines_joined(text, n) == text_between(text, 0, line_starts(encode_utf8(text))[n]),
        n == line_starts(encode_utf8(text)).len() - 1 ==> lines_joined(text, n) == text,
    decreases n,
{
    let bytes = encode_utf8(text);
    let starts = line_starts(bytes);
    law_line_starts(text);
    encode_utf8_valid_utf8(text);
    encode_utf8_decode_utf8(text);
    if n == 0 {
        assert(bytes.subrange(0, 0) =~= Seq::<u8>::empty());
        assert(decode_utf8(Seq::<u8>::empty()) =~= Seq::<char>::empty());
    } else {
        law_lines_make_the_text(text, n - 1);
        law_line_range(text, n - 1);
        let from = starts[n - 1];
        let to = starts[n];
        assert(from <= to);
        lemma_between_boundaries(bytes, from, to);
        valid_utf8_split(bytes, from);
        lemma_decode_concat(bytes.subrange(0, from), bytes.subrange(from, to));
        assert(bytes.subrange(0, from) + bytes.subrange(from, to) =~= bytes.subrange(0, to));
    }
    if n == starts.len() - 1 {
        assert(bytes.subrange(0, bytes.len() as int) =~= bytes);
    }
}

/// In a text of at most `u32::MAX` bytes, every line but the last ends with
/// a newline and has no other; the last line has none.
pub proof fn law_line_ends_with_newline(text: Seq<char>, line: int)
    requires
        encode_utf8(text).len() <= u32::MAX,
        0 <= line < line_starts(encode_utf8(text)).len() - 1,
    ensures
        line_text(text, line) is Some,
        line < line_starts(encode_utf8(text)).len() - 2 ==> line_text(text, line)->0.len() > 0
            && line_text(text, line)->0.last() == '\n',
        forall|j: int|
            0 <= j < line_text(text, line)->0.len() && #[trigger] line_text(text, line)->0[j]
                == '\n' ==> line < line_starts(encode_utf8(text)).len() - 2 && j == line_text(
                text,
                line,
            )->0.len() - 1,
{
    let bytes = encode_utf8(text);
    let total = bytes.len() as int;
    let starts = line_starts(bytes);
    let ends = newline_ends(bytes, total);
    law_line_starts(text);
    law_line_range(text, line);
    lemma_newline_ends(bytes, total);
    encode_utf8_valid_utf8(text);
    let from = starts[line];
    let to = starts[line + 1];
    let part = bytes.subrange(from, to);
    let chars = text_between(text, from, to);
    lemma_between_boundaries(bytes, from, to);
    decode_utf8_encode_utf8(part);
    assert(encode_utf8(chars) == part);
    if line < starts.len() - 2 {
        assert(to == ends[line]);
        assert(bytes[to - 1] == 0x0Au8);
        if line > 0 {
            assert(from == ends[line - 1]);
        }
        assert(from < to);
        lemma_encode_len(chars);
        if chars.len() == 0 {
            assert(encode_utf8(chars) =~= Seq::<u8>::empty());
        }
        assert(chars.len() > 0);
        // The last character begins where the last byte stands: the newline
        // byte is no part of a longer character.
        let width = part.len() - 1;
        assert(part[width] == 0x0Au8);
        is_char_boundary_iff_not_is_continuation_byte(part, width);
        valid_utf8_split(part, width);
        decode_utf8_split(part, width);
        let head = decode_utf8(part.subrange(0, width));
        let tail = decode_utf8(part.subrange(width, part.len() as int));
        decode_utf8_encode_utf8(part.subrange(width, part.len() as int));
        lemma_encode_len(tail);
        assert(tail.len() == 1) by {
            if tail.len() == 0 {
                assert(encode_utf8(tail) =~= Seq::<u8>::empty());
            }
        }
        assert(chars =~= head + tail);
        assert(chars.last() == tail[0]);
        law_newline_byte(tail, 0);
        assert(tail.subrange(0, 0) =~= Seq::<char>::empty());
        assert(encode_utf8(Seq::<char>::empty()) =~= Seq::<u8>::empty());
    }
    assert forall|j: int| 0 <= j < chars.len() && #[trigger] chars[j] == '\n' implies line
        < starts.len() - 2 && j == chars.len() - 1 by {
        law_newline_byte(chars, j);
        let at = byte_offset(chars, j)->0;
        assert(part[at] == bytes[from + at]);
        let after = from + at + 1;
        assert(ends.contains(after));
        let m = choose|m: int| 0 <= m < ends.len() && ends[m] == after;
        assert(starts[m + 1] == after);
        // `after` is a line start beyond `from`, so it is no earlier than `to`.
        if m + 1 <= line {
            assert(starts[m + 1] <= starts[line]);
        }
        assert(m + 1 == line + 1);
        assert(after == to);
        // The character at `j` ends where the line ends: it is the last.
        if j < chars.len() - 1 {
            lemma_encode_split(chars, j + 1);
            lemma_encode_split(chars.subrange(0, j + 1), j);
            assert(chars.subrange(0, j + 1).subrange(0, j) =~= chars.subrange(0, j));
            assert(chars.subrange(0, j + 1).subrange(j, j + 1) =~= seq![chars[j]]);
            lemma_encode_one(chars[j]);
            lemma_encode_len(seq![chars[j]]);
            lemma_encode_len(chars.subrange(j + 1, chars.len() as int));
            assert(false);
        }
    }
}

} // verus!
