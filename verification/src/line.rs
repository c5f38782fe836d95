//! The kinds of line in a unified diff, and how a line is told apart.

use vstd::prelude::*;

verus! {

/// What a line of diff text is.
#[derive(Clone, Copy, Debug, PartialEq, Eq, Structural)]
pub enum Kind {
    /// A line that opens the description of a file.
    Header,
    /// A line that opens a hunk: `@@ ... @@`.
    HunkHeader,
    /// A line that the change takes away.
    Removed,
    /// A line that the change brings in.
    Added,
    /// A line that the change leaves as it is.
    Context,
    /// Anything else. Such a line is passed on as it came.
    Other,
}

pub const AT: u8 = 0x40;

pub const MINUS: u8 = 0x2d;

pub const PLUS: u8 = 0x2b;

pub const SPACE: u8 = 0x20;

/// `line` begins with the bytes of `prefix`.
pub open spec fn starts_with(line: Seq<u8>, prefix: Seq<u8>) -> bool {
    prefix.len() <= line.len() && forall|i: int|
        0 <= i < prefix.len() ==> #[trigger] line[i] == prefix[i]
}

/// The marker `@@` stands at position `k` of `line`.
pub open spec fn marker_at(line: Seq<u8>, k: int) -> bool {
    0 <= k && k + 1 < line.len() && line[k] == AT && line[k + 1] == AT
}

/// `line` begins with `@@` and holds a second `@@` after it.
pub open spec fn is_hunk_header(line: Seq<u8>) -> bool {
    marker_at(line, 0) && exists|k: int| 2 <= k && #[trigger] marker_at(line, k)
}

/// The bytes of `diff `.
pub open spec fn diff_prefix() -> Seq<u8> {
    seq![0x64u8, 0x69u8, 0x66u8, 0x66u8, 0x20u8]
}

/// The bytes of `index `.
pub open spec fn index_prefix() -> Seq<u8> {
    seq![0x69u8, 0x6eu8, 0x64u8, 0x65u8, 0x78u8, 0x20u8]
}

/// The bytes of `--- `.
pub open spec fn old_file_prefix() -> Seq<u8> {
    seq![0x2du8, 0x2du8, 0x2du8, 0x20u8]
}

/// The bytes of `+++ `.
pub open spec fn new_file_prefix() -> Seq<u8> {
    seq![0x2bu8, 0x2bu8, 0x2bu8, 0x20u8]
}

/// `line` begins with `diff `, `index `, `--- ` or `+++ `.
pub open spec fn is_file_header(line: Seq<u8>) -> bool {
    starts_with(line, diff_prefix()) || starts_with(line, index_prefix()) || starts_with(
        line,
        old_file_prefix(),
    ) || starts_with(line, new_file_prefix())
}

/// The kind of a line. The first rule that fits decides: a hunk header, a
/// file header, then the first byte (`-`, `+`, space); a line that fits
/// none of them, the empty line among them, is `Other`.
pub open spec fn kind_of(line: Seq<u8>) -> Kind {
    if is_hunk_header(line) {
        Kind::HunkHeader
    } else if is_file_header(line) {
        Kind::Header
    } else if line.len() > 0 && line[0] == MINUS {
        Kind::Removed
    } else if line.len() > 0 && line[0] == PLUS {
        Kind::Added
    } else if line.len() > 0 && line[0] == SPACE {
        Kind::Context
    } else {
        Kind::Other
    }
}

fn has_second_marker(line: &[u8]) -> (found: bool)
    requires
        line.len() >= 2,
    ensures
        found == exists|k: int| 2 <= k && #[trigger] marker_at(line@, k),
{
    let mut k: usize = 2;
    while k < line.len() - 1
        invariant
            2 <= k,
            line.len() >= 2,
            forall|q: int| 2 <= q < k ==> !#[trigger] marker_at(line@, q),
        decreases line.len() - k,
    {
        if line[k] == AT && line[k + 1] == AT {
            assert(marker_at(line@, k as int));
            return true;
        }
        k += 1;
    }
    false
}

fn begins_with_diff(line: &[u8]) -> (yes: bool)
    ensures
        yes == starts_with(line@, diff_prefix()),
{
    let yes = line.len() >= 5 && line[0] == 0x64 && line[1] == 0x69 && line[2] == 0x66 && line[3]
        == 0x66 && line[4] == 0x20;
    proof {
        let p = diff_prefix();
        if starts_with(line@, p) {
            assert(line@[0] == p[0] && line@[1] == p[1] && line@[2] == p[2] && line@[3] == p[3]
                && line@[4] == p[4]);
        }
    }
    yes
}

fn begins_with_index(line: &[u8]) -> (yes: bool)
    ensures
        yes == starts_with(line@, index_prefix()),
{
    let yes = line.len() >= 6 && line[0] == 0x69 && line[1] == 0x6e && line[2] == 0x64 && line[3]
        == 0x65 && line[4] == 0x78 && line[5] == 0x20;
    proof {
        let p = index_prefix();
        if starts_with(line@, p) {
            assert(line@[0] == p[0] && line@[1] == p[1] && line@[2] == p[2] && line@[3] == p[3]
                && line@[4] == p[4] && line@[5] == p[5]);
        }
    }
    yes
}

/// Whether `line` is three times `mark` and then a space, or longer.
pub fn begins_with_triple(line: &[u8], mark: u8) -> (yes: bool)
    ensures
        yes == starts_with(line@, seq![mark, mark, mark, SPACE]),
{
    let yes = line.len() >= 4 && line[0] == mark && line[1] == mark && line[2] == mark && line[3]
        == SPACE;
    proof {
        let p = seq![mark, mark, mark, SPACE];
        if starts_with(line@, p) {
            assert(line@[0] == p[0] && line@[1] == p[1] && line@[2] == p[2] && line@[3] == p[3]);
        }
    }
    yes
}

/// Tells what kind of line `line` is. Every line has a kind: none is
/// rejected.
pub fn classify(line: &[u8]) -> (kind: Kind)
    ensures
        kind == kind_of(line@),
{
    if line.len() >= 2 && line[0] == AT && line[1] == AT && has_second_marker(line) {
        return Kind::HunkHeader;
    }
    assert(!is_hunk_header(line@));
    let header = begins_with_diff(line) || begins_with_index(line) || begins_with_triple(
        line,
        MINUS,
    ) || begins_with_triple(line, PLUS);
    proof {
        assert(seq![MINUS, MINUS, MINUS, SPACE] =~= old_file_prefix());
        assert(seq![PLUS, PLUS, PLUS, SPACE] =~= new_file_prefix());
    }
    if header {
        Kind::Header
    } else if line.len() > 0 && line[0] == MINUS {
        Kind::Removed
    } else if line.len() > 0 && line[0] == PLUS {
        Kind::Added
    } else if line.len() > 0 && line[0] == SPACE {
        Kind::Context
    } else {
        Kind::Other
    }
}

} // verus!
