//! Choosing the decoder for a source image by its file name.

use vstd::prelude::*;
use vstd::string::StrSliceExecFns;

verus! {

/// The containers of linear radiance that the conversion reads.
#[derive(Clone, Copy, Debug, PartialEq, Eq, Structural)]
pub enum SourceFormat {
    /// Radiance RGBE, `.hdr`.
    Hdr,
    /// OpenEXR, `.exr`.
    Exr,
}

#[derive(Clone, Copy, Debug, PartialEq, Eq, Structural)]
pub enum FormatError {
    /// The file name ends in neither `.hdr` nor `.exr`.
    UnsupportedFormat,
}

pub open spec fn has_suffix(s: Seq<char>, suffix: Seq<char>) -> bool {
    s.len() >= suffix.len() && s.subrange(s.len() - suffix.len(), s.len() as int) == suffix
}

fn ends_with_ext(path: &str, a: char, b: char, c: char) -> (r: bool)
    ensures
        r == has_suffix(path@, seq!['.', a, b, c]),
{
    let n = path.unicode_len();
    if n < 4 {
        return false;
    }
    let r = path.get_char(n - 4) == '.' && path.get_char(n - 3) == a && path.get_char(n - 2) == b
        && path.get_char(n - 1) == c;
    proof {
        let tail = path@.subrange(n - 4, n as int);
        if r {
            assert(tail =~= seq!['.', a, b, c]);
        } else {
            assert(tail[0] != '.' || tail[1] != a || tail[2] != b || tail[3] != c);
        }
    }
    r
}

/// The decoder for a source file, by its extension (case sensitive):
/// `.hdr` or `.exr`; any other name is a configuration error.
pub fn source_format(path: &str) -> (r: Result<SourceFormat, FormatError>)
    ensures
        has_suffix(path@, seq!['.', 'h', 'd', 'r']) ==> r == Ok::<SourceFormat, FormatError>(
            SourceFormat::Hdr,
        ),
        has_suffix(path@, seq!['.', 'e', 'x', 'r']) ==> r == Ok::<SourceFormat, FormatError>(
            SourceFormat::Exr,
        ),
        !has_suffix(path@, seq!['.', 'h', 'd', 'r']) && !has_suffix(path@, seq!['.', 'e', 'x', 'r'])
            ==> r == Err::<SourceFormat, FormatError>(FormatError::UnsupportedFormat),
{
    if ends_with_ext(path, 'h', 'd', 'r') {
        Ok(SourceFormat::Hdr)
    } else if ends_with_ext(path, 'e', 'x', 'r') {
        Ok(SourceFormat::Exr)
    } else {
        Err(FormatError::UnsupportedFormat)
    }
}

} // verus!
