//! The separator filter: drops the `--` group-separator lines that a
//! line-grep tool with context inserts, and passes every other byte through
//! unchanged.

use vstd::prelude::*;

use crate::search::find_byte_from;
use crate::search::lemma_find_byte_from;
use crate::search::find_byte_at;

verus! {

/// A separator line: `--` terminated by LF or CR LF.
pub open spec fn spec_is_separator(line: Seq<u8>) -> bool {
    line == seq![45u8, 45u8, 10u8] || line == seq![45u8, 45u8, 13u8, 10u8]
}

/// The input split at LF boundaries, with separator lines removed. A final
/// line with no terminator is kept as it is.
pub open spec fn spec_strip_from(s: Seq<u8>, pos: int) -> Seq<u8>
    decreases s.len() - pos when 0 <= pos <= s.len() via spec_strip_from_dec
{
    if pos >= s.len() {
        Seq::empty()
    } else {
        match find_byte_from(s, 10, pos) {
            Some(i) => {
                let line = s.subrange(pos, i + 1);
                if spec_is_separator(line) {
                    spec_strip_from(s, i + 1)
                } else {
                    line + spec_strip_from(s, i + 1)
                }
            },
            None => s.subrange(pos, s.len() as int),
        }
    }
}

#[via_fn]
proof fn spec_strip_from_dec(s: Seq<u8>, pos: int) {
    if 0 <= pos <= s.len() {
        lemma_find_byte_from(s, 10, pos);
    }
}

/// The whole input with separator lines removed.
pub open spec fn spec_strip(s: Seq<u8>) -> Seq<u8> {
    spec_strip_from(s, 0)
}

fn is_grep_separator(line: &[u8]) -> (r: bool)
    ensures
        r == spec_is_separator(line@),
{
    if line.len() == 3 {
        let r = line[0] == 45 && line[1] == 45 && line[2] == 10;
        proof {
            if r {
                assert(line@ =~= seq![45u8, 45u8, 10u8]);
            } else {
                assert(line@ != seq![45u8, 45u8, 10u8]);
                assert(line@.len() != 4);
            }
        }
        r
    } else if line.len() == 4 {
        let r = line[0] == 45 && line[1] == 45 && line[2] == 13 && line[3] == 10;
        proof {
            if r {
                assert(line@ =~= seq![45u8, 45u8, 13u8, 10u8]);
            } else {
                assert(line@ != seq![45u8, 45u8, 13u8, 10u8]);
                assert(line@.len() != 3);
            }
        }
        r
    } else {
        assert(line@.len() != 3 && line@.len() != 4);
        false
    }
}

/// Wraps a byte stream and hands it on with grep's group-separator lines
/// removed.
pub struct GrepFilter {
    filtered: Vec<u8>,
}

impl GrepFilter {
    /// The bytes that remain after filtering.
    pub closed spec fn view(&self) -> Seq<u8> {
        self.filtered@
    }

    /// Filters `input` line by line.
    pub fn new(input: &[u8]) -> (r: GrepFilter)
        ensures
            r@ == spec_strip(input@),
    {
        let mut out: Vec<u8> = Vec::new();
        let mut pos: usize = 0;
        while pos < input.len()
            invariant
                pos <= input@.len(),
                spec_strip(input@) == out@ + spec_strip_from(input@, pos as int),
            decreases input@.len() - pos,
        {
            proof {
                lemma_find_byte_from(input@, 10, pos as int);
            }
            match find_byte_at(input, 10, pos) {
                Some(i) => {
                    let line: &[u8] = &input[pos..i + 1];
                    assert(line@ =~= input@.subrange(pos as int, i + 1));
                    if !is_grep_separator(line) {
                        out.extend_from_slice(line);
                    }
                    proof {
                        assert(spec_strip(input@) =~= out@ + spec_strip_from(
                            input@,
                            i + 1,
                        ));
                    }
                    pos = i + 1;
                },
                None => {
                    let line: &[u8] = &input[pos..input.len()];
                    assert(line@ =~= input@.subrange(pos as int, input@.len() as int));
                    out.extend_from_slice(line);
                    proof {
                        assert(spec_strip(input@) =~= out@ + spec_strip_from(
                            input@,
                            input@.len() as int,
                        ));
                    }
                    pos = input.len();
                },
            }
        }
        assert(spec_strip(input@) =~= out@);
        GrepFilter { filtered: out }
    }

    /// Hands the filtered bytes out.
    pub fn into_bytes(self) -> (r: Vec<u8>)
        ensures
            r@ == self@,
    {
        self.filtered
    }

    /// The filtered bytes, borrowed.
    pub fn bytes(&self) -> (r: &Vec<u8>)
        ensures
            r@ == self@,
    {
        &self.filtered
    }
}

} // verus!
