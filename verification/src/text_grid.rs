//! Lines, columns and the table of line starts.

use vstd::prelude::*;
use vstd::utf8::*;
use crate::encoding::{byte_in_str, byte_offset};

verus! {

/// Zero-based line number.
#[derive(Debug, Clone, Copy)]
pub struct Line(pub u32);

/// Zero-based column number, counted in characters.
#[derive(Debug, Clone, Copy)]
pub struct Column(pub u32);

/// A range of text from `start` up to, and not including, `end`.
#[derive(Debug, Clone, Copy)]
pub struct Span {
    pub start: (Line, Column),
    pub end: (Line, Column),
}

impl std::ops::Add<u32> for Line {
    type Output = Line;

    /// The line `rhs` lines further down. The sum has to be a `u32`.
    fn add(self, rhs: u32) -> (r: Line) {
        Line(self.0 + rhs)
    }
}

impl vstd::std_specs::ops::AddSpecImpl<u32> for Line {
    open spec fn obeys_add_spec() -> bool {
        true
    }

    open spec fn add_req(self, rhs: u32) -> bool {
        self.0 + rhs <= u32::MAX
    }

    open spec fn add_spec(self, rhs: u32) -> Line {
        Line((self.0 + rhs) as u32)
    }
}

impl Span {
    /// The span between two `(line, column)` pairs. Every number has to be
    /// below `u32::MAX`.
    pub fn from(pairs: ((usize, usize), (usize, usize))) -> (r: Span)
        requires
            pairs.0.0 < u32::MAX,
            pairs.0.1 < u32::MAX,
            pairs.1.0 < u32::MAX,
            pairs.1.1 < u32::MAX,
        ensures
            r.start.0.0 == pairs.0.0,
            r.start.1.0 == pairs.0.1,
            r.end.0.0 == pairs.1.0,
            r.end.1.0 == pairs.1.1,
    {
        let ((l1, c1), (l2, c2)) = pairs;
        Span {
            start: (Line(l1 as u32), Column(c1 as u32)),
            end: (Line(l2 as u32), Column(c2 as u32)),
        }
    }
}

/// The offsets one past each newline byte among the first `n` bytes, in
/// ascending order.
pub open spec fn newline_ends(bytes: Seq<u8>, n: int) -> Seq<int>
    decreases n,
{
    if n <= 0 {
        Seq::empty()
    } else if bytes[n - 1] == 0x0Au8 {
        newline_ends(bytes, n - 1).push(n)
    } else {
        newline_ends(bytes, n - 1)
    }
}

/// Where the lines of `bytes` begin: offset 0, then the offset after each
/// newline byte, and last the length of `bytes` as a closing marker. A
/// carriage return before a newline is left as the last byte of its line.
pub open spec fn line_starts(bytes: Seq<u8>) -> Seq<int> {
    (seq![0int] + newline_ends(bytes, bytes.len() as int)).push(bytes.len() as int)
}

/// The line starts as they are stored, each cut to 32 bits. For a text of at
/// most `u32::MAX` bytes nothing is lost.
pub open spec fn line_index(bytes: Seq<u8>) -> Seq<u32> {
    line_starts(bytes).map_values(|p: int| p as u32)
}

/// What `newline_ends` lists: exactly the offsets after a newline byte, each
/// once, in ascending order.
pub proof fn lemma_newline_ends(bytes: Seq<u8>, n: int)
    requires
        0 <= n <= bytes.len(),
    ensures
        newline_ends(bytes, n).len() <= n,
        forall|k: int|
            0 <= k < newline_ends(bytes, n).len() ==> 1 <= #[trigger] newline_ends(bytes, n)[k]
                <= n && bytes[newline_ends(bytes, n)[k] - 1] == 0x0Au8,
        forall|j: int, k: int|
            0 <= j < k < newline_ends(bytes, n).len() ==> newline_ends(bytes, n)[j]
                < newline_ends(bytes, n)[k],
        forall|i: int|
            0 <= i < n && bytes[i] == 0x0Au8 ==> newline_ends(bytes, n).contains(i + 1),
    decreases n,
{
    if n > 0 {
        lemma_newline_ends(bytes, n - 1);
        let before = newline_ends(bytes, n - 1);
        let now = newline_ends(bytes, n);
        assert forall|i: int| 0 <= i < n && bytes[i] == 0x0Au8 implies now.contains(i + 1) by {
            if i < n - 1 {
                let k = choose|k: int| 0 <= k < before.len() && before[k] == i + 1;
                assert(now[k] == i + 1);
            } else {
                assert(now[now.len() - 1] == i + 1);
            }
        }
    }
}

/// The table of line starts of `text`.
pub fn make_line_indices(text: &str) -> (result: Vec<u32>)
    ensures
        result@ == line_index(encode_utf8(text@)),
{
    let bytes = text.as_bytes();
    let mut result: Vec<u32> = Vec::new();
    result.push(0);
    let mut i: usize = 0;
    while i < bytes.len()
        invariant
            i <= bytes@.len(),
            result@ == (seq![0int] + newline_ends(bytes@, i as int)).map_values(|p: int| p as u32),
        decreases bytes@.len() - i,
    {
        if bytes[i] == 0xA {
            result.push((i + 1) as u32);
        }
        i = i + 1;
        assert(result@ =~= (seq![0int] + newline_ends(bytes@, i as int)).map_values(
            |p: int| p as u32,
        ));
    }
    result.push(bytes.len() as u32);
    assert(result@ =~= line_index(bytes@));
    result
}

/// Maps a `Line` to the byte offset at which it begins.
pub struct LinesIndex(Vec<u32>);

impl View for LinesIndex {
    type V = Seq<u32>;

    closed spec fn view(&self) -> Seq<u32> {
        self.0@
    }
}

impl LinesIndex {
    /// The index of `text`.
    pub fn from_str(text: &str) -> (r: Self)
        ensures
            r@ == line_index(encode_utf8(text@)),
    {
        LinesIndex(make_line_indices(text))
    }

    /// The entry for `index`, if the table has one.
    pub fn get(&self, index: Line) -> (r: Option<&u32>)
        ensures
            match r {
                Some(offset) => index.0 < self@.len() && *offset == self@[index.0 as int],
                None => index.0 >= self@.len(),
            },
    {
        let i = index.0 as usize;
        if i < self.0.len() {
            Some(&self.0[i])
        } else {
            None
        }
    }

    /// The number of entries: one for each line, and the closing marker.
    pub fn len(&self) -> (n: usize)
        ensures
            n == self@.len(),
    {
        self.0.len()
    }
}

impl std::ops::Index<Line> for LinesIndex {
    type Output = u32;

    /// The entry for `index`, which the table has to have.
    fn index(&self, index: Line) -> (r: &u32)
        ensures
            *r == self@[index.0 as int],
    {
        &self.0[index.0 as usize]
    }
}

impl vstd::std_specs::core::IndexSpecImpl<Line> for LinesIndex {
    open spec fn index_req(&self, index: &Line) -> bool {
        index.0 < self@.len()
    }
}

/// The byte offset of character column `c` in `line`. The column just past
/// the last character is accepted; any later one is not.
pub fn byte_in_line(line: &str, c: Column) -> (r: Option<usize>)
    ensures
        match r {
            Some(b) => byte_offset(line@, c.0 as int) == Some(b as int),
            None => byte_offset(line@, c.0 as int) is None,
        },
{
    byte_in_str(line, c.0 as u64)
}

} // verus!
