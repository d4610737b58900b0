//! The listing of an index: for every entry the SHA-256 of its original in
//! hexadecimal digits, a tab, and its path.

use vstd::prelude::*;
use vstd::string::StringExecFns;
use crate::model::{FileEntry, FileEntryView, FileIndexFile};

verus! {

/// The hexadecimal digit for `value`, in lower case.
pub open spec fn hex_digit(value: int) -> char {
    if value == 0 {
        '0'
    } else if value == 1 {
        '1'
    } else if value == 2 {
        '2'
    } else if value == 3 {
        '3'
    } else if value == 4 {
        '4'
    } else if value == 5 {
        '5'
    } else if value == 6 {
        '6'
    } else if value == 7 {
        '7'
    } else if value == 8 {
        '8'
    } else if value == 9 {
        '9'
    } else if value == 10 {
        'a'
    } else if value == 11 {
        'b'
    } else if value == 12 {
        'c'
    } else if value == 13 {
        'd'
    } else if value == 14 {
        'e'
    } else {
        'f'
    }
}

/// The bytes of `bytes` in hexadecimal digits, two a byte.
pub open spec fn hex_of(bytes: Seq<u8>) -> Seq<char>
    decreases bytes.len(),
{
    if bytes.len() == 0 {
        Seq::empty()
    } else {
        hex_of(bytes.drop_last()) + seq![
            hex_digit(bytes.last() as int / 16),
            hex_digit(bytes.last() as int % 16),
        ]
    }
}

/// The line of `entry` in a listing.
pub open spec fn line_of(entry: FileEntryView) -> Seq<char> {
    hex_of(entry.info.original_sha256) + seq!['\t'] + entry.info.path
}

/// The hexadecimal digit for `value`, as a string.
fn digit(value: u8) -> (r: &'static str)
    requires
        value < 16,
    ensures
        r@ == seq![hex_digit(value as int)],
{
    proof {
        reveal_strlit("0");
        reveal_strlit("1");
        reveal_strlit("2");
        reveal_strlit("3");
        reveal_strlit("4");
        reveal_strlit("5");
        reveal_strlit("6");
        reveal_strlit("7");
        reveal_strlit("8");
        reveal_strlit("9");
        reveal_strlit("a");
        reveal_strlit("b");
        reveal_strlit("c");
        reveal_strlit("d");
        reveal_strlit("e");
        reveal_strlit("f");
    }
    let r = if value == 0 {
        "0"
    } else if value == 1 {
        "1"
    } else if value == 2 {
        "2"
    } else if value == 3 {
        "3"
    } else if value == 4 {
        "4"
    } else if value == 5 {
        "5"
    } else if value == 6 {
        "6"
    } else if value == 7 {
        "7"
    } else if value == 8 {
        "8"
    } else if value == 9 {
        "9"
    } else if value == 10 {
        "a"
    } else if value == 11 {
        "b"
    } else if value == 12 {
        "c"
    } else if value == 13 {
        "d"
    } else if value == 14 {
        "e"
    } else {
        "f"
    };
    assert(r@ =~= seq![hex_digit(value as int)]);
    r
}

/// Puts the bytes of `bytes` at the end of `text`, in hexadecimal digits.
fn push_hex(text: &mut String, bytes: &[u8])
    ensures
        final(text)@ == old(text)@ + hex_of(bytes@),
{
    let mut i: usize = 0;
    proof {
        assert(bytes@.take(0) == Seq::<u8>::empty());
        assert(text@ + Seq::<char>::empty() == text@);
    }
    while i < bytes.len()
        invariant
            i <= bytes@.len(),
            text@ == old(text)@ + hex_of(bytes@.take(i as int)),
        decreases bytes.len() - i,
    {
        let byte = bytes[i];
        text.append(digit(byte / 16));
        text.append(digit(byte % 16));
        proof {
            let next = bytes@.take(i + 1);
            assert(next.drop_last() == bytes@.take(i as int));
            assert(next.last() == byte);
            assert(text@ =~= old(text)@ + hex_of(next));
        }
        i = i + 1;
    }
    proof {
        assert(bytes@.take(i as int) == bytes@);
    }
}

/// The bytes of `bytes` in hexadecimal digits, in lower case and two a byte.
pub fn to_hex(bytes: &[u8]) -> (r: String)
    ensures
        r@ == hex_of(bytes@),
{
    let mut text = String::new();
    push_hex(&mut text, bytes);
    assert(Seq::<char>::empty() + hex_of(bytes@) == hex_of(bytes@));
    text
}

/// The line of `entry` in a listing: the SHA-256 of its original in
/// hexadecimal digits, a tab, and its path.
pub fn checksum_line(entry: &FileEntry) -> (r: String)
    ensures
        r@ == line_of(entry@),
{
    let mut line = to_hex(entry.info.original_sha256.as_slice());
    proof {
        reveal_strlit("\t");
        assert("\t"@ =~= seq!['\t']);
    }
    line.append("\t");
    line.append(entry.info.path.as_str());
    line
}

/// The lines of `lines` as mathematical values.
pub open spec fn line_views(lines: Seq<String>) -> Seq<Seq<char>> {
    Seq::new(lines.len(), |i: int| lines[i]@)
}

/// The listing of `index`: the line of every entry, in the order of the
/// entries.
pub fn checksum_lines(index: &FileIndexFile) -> (r: Vec<String>)
    ensures
        line_views(r@) == Seq::new(index@.len(), |i: int| line_of(index@[i])),
{
    let mut lines: Vec<String> = Vec::new();
    let mut i: usize = 0;
    while i < index.entries.len()
        invariant
            i <= index.entries@.len(),
            lines@.len() == i,
            forall|k: int| 0 <= k < i ==> (#[trigger] lines@[k])@ == line_of(index.entries@[k]@),
        decreases index.entries.len() - i,
    {
        lines.push(checksum_line(&index.entries[i]));
        i = i + 1;
    }
    proof {
        assert(line_views(lines@) =~= Seq::new(index@.len(), |i: int| line_of(index@[i])));
    }
    lines
}

} // verus!
