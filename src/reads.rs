//! The reads of a FASTA or FASTQ stream, told apart line by line.
//!
//! One flag is kept between lines: whether the next plain line is a FASTQ
//! quality line. Header lines (`@`, `>`) and separators (`+`) are dropped, as
//! are empty lines; every other line is a read unless it is a quality line.
//!
//! `Lines` cuts a byte buffer into the lines that a newline ends.
use vstd::prelude::*;

verus! {

/// The flag after `line`, and whether `line` is a read, given the flag before.
pub open spec fn reader_step(skip_next: bool, line: Seq<u8>) -> (bool, bool) {
    if line.len() == 0 {
        (skip_next, false)
    } else if line[0] == 64 {
        // '@': a FASTQ header
        (false, false)
    } else if line[0] == 62 {
        // '>': a FASTA header
        (skip_next, false)
    } else if line[0] == 43 {
        // '+': the separator before a FASTQ quality line
        (true, false)
    } else {
        (skip_next, !skip_next)
    }
}

/// The state of a reader between two lines.
pub struct SeqReader {
    pub skip_next: bool,
}

impl SeqReader {
    pub fn new() -> (r: Self)
        ensures
            !r.skip_next,
    {
        SeqReader { skip_next: false }
    }

    /// Takes the next line; true if it is a read.
    pub fn next_line(&mut self, line: &[u8]) -> (r: bool)
        ensures
            (final(self).skip_next, r) == reader_step(old(self).skip_next, line@),
    {
        if line.len() == 0 {
            return false;
        }
        let first = line[0];
        if first == 64 {
            self.skip_next = false;
            false
        } else if first == 62 {
            false
        } else if first == 43 {
            self.skip_next = true;
            false
        } else {
            !self.skip_next
        }
    }
}

/// `pos` is the index of the first newline of `s`.
pub open spec fn first_newline(s: Seq<u8>, pos: int) -> bool {
    &&& 0 <= pos < s.len()
    &&& s[pos] == 10
    &&& forall|j: int| 0 <= j < pos ==> s[j] != 10
}

/// Relies on `memchr::memchr`: the index of the first occurrence of `needle`
/// in `haystack`, or `None` if there is none.
#[verifier::external_body]
fn find_byte(needle: u8, haystack: &[u8]) -> (r: Option<usize>)
    ensures
        r is None ==> forall|j: int| 0 <= j < haystack@.len() ==> haystack@[j] != needle,
        r is Some ==> r->0 < haystack@.len() && haystack@[r->0 as int] == needle && forall|j: int|
            0 <= j < r->0 ==> haystack@[j] != needle,
{
    memchr::memchr(needle, haystack)
}

/// The lines of a buffer that a newline ends; bytes after the last newline
/// are not a line.
pub struct Lines<'a> {
    pub data: &'a [u8],
}

impl<'a> Lines<'a> {
    pub fn new(data: &'a [u8]) -> (r: Self)
        ensures
            r.data@ == data@,
    {
        Lines { data }
    }

    /// The next line, without its newline; `None` once no newline is left.
    pub fn next(&mut self) -> (r: Option<&'a [u8]>)
        ensures
            r is None <==> forall|j: int| 0 <= j < old(self).data@.len() ==> old(self).data@[j] != 10,
            r is None ==> final(self).data@ == old(self).data@,
            r is Some ==> first_newline(old(self).data@, r->0@.len() as int) && r->0@
                == old(self).data@.subrange(0, r->0@.len() as int) && final(self).data@
                == old(self).data@.subrange((r->0@.len() + 1) as int, old(self).data@.len() as int),
    {
        let pos = match find_byte(10, self.data) {
            Some(p) => p,
            None => return None,
        };
        let n = self.data.len();
        let line = vstd::slice::slice_subrange(self.data, 0, pos);
        self.data = vstd::slice::slice_subrange(self.data, pos + 1, n);
        Some(line)
    }
}

} // verus!
