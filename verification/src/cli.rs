//! Command-line vocabulary: the scale factors, how they are spelled on the
//! command line, and the parsed arguments.
use vstd::prelude::*;
use std::path::PathBuf;

verus! {

/// A filesystem path, carried through unchanged.
#[verifier::external_type_specification]
#[verifier::external_body]
pub struct ExPathBuf(std::path::PathBuf);

/// xBRZ scaling factor.
#[derive(Clone, Copy, Debug, PartialEq, Eq, Structural)]
pub enum Scale {
    X2,
    X3,
    X4,
    X5,
    X6,
}

impl Scale {
    pub open spec fn spec_factor(self) -> u8 {
        match self {
            Scale::X2 => 2,
            Scale::X3 => 3,
            Scale::X4 => 4,
            Scale::X5 => 5,
            Scale::X6 => 6,
        }
    }

    /// The factor by which this scale multiplies each side.
    pub fn factor(self) -> (f: u8)
        ensures
            f == self.spec_factor(),
            2 <= f <= 6,
    {
        match self {
            Scale::X2 => 2,
            Scale::X3 => 3,
            Scale::X4 => 4,
            Scale::X5 => 5,
            Scale::X6 => 6,
        }
    }
}

/// The scale a command-line word names: `2x` or `2` through `6x` or `6`.
pub open spec fn scale_named(t: Seq<char>) -> Option<Scale> {
    if t == "2x"@ || t == "2"@ {
        Some(Scale::X2)
    } else if t == "3x"@ || t == "3"@ {
        Some(Scale::X3)
    } else if t == "4x"@ || t == "4"@ {
        Some(Scale::X4)
    } else if t == "5x"@ || t == "5"@ {
        Some(Scale::X5)
    } else if t == "6x"@ || t == "6"@ {
        Some(Scale::X6)
    } else {
        None
    }
}

/// The message for a word that names no scale.
pub open spec fn scale_error_text(t: Seq<char>) -> Seq<char> {
    "invalid scale `"@ + t + "`: expected one of 2x, 3x, 4x, 5x, 6x"@
}

/// Does `s` spell exactly `t`?
fn same_text(s: &str, t: &str) -> (b: bool)
    ensures
        b == (s@ == t@),
{
    let n = s.unicode_len();
    if n != t.unicode_len() {
        return false;
    }
    let mut i: usize = 0;
    while i < n
        invariant
            i <= n,
            n == s@.len(),
            n == t@.len(),
            forall|j: int| 0 <= j < i ==> s@[j] == t@[j],
        decreases n - i,
    {
        if s.get_char(i) != t.get_char(i) {
            return false;
        }
        i += 1;
    }
    proof {
        assert(s@ =~= t@);
    }
    true
}

/// Parse a scale word: `2x`, `3x`, `4x`, `5x` or `6x`, with or without the
/// `x`.
pub fn parse_scale(s: &str) -> (r: Result<Scale, String>)
    ensures
        match r {
            Ok(scale) => scale_named(s@) == Some(scale),
            Err(msg) => scale_named(s@) is None && msg@ == scale_error_text(s@),
        },
{
    if same_text(s, "2x") || same_text(s, "2") {
        Ok(Scale::X2)
    } else if same_text(s, "3x") || same_text(s, "3") {
        Ok(Scale::X3)
    } else if same_text(s, "4x") || same_text(s, "4") {
        Ok(Scale::X4)
    } else if same_text(s, "5x") || same_text(s, "5") {
        Ok(Scale::X5)
    } else if same_text(s, "6x") || same_text(s, "6") {
        Ok(Scale::X6)
    } else {
        let mut msg = String::new();
        msg.append("invalid scale `");
        msg.append(s);
        msg.append("`: expected one of 2x, 3x, 4x, 5x, 6x");
        Err(msg)
    }
}

/// The parsed command line.
pub struct Cli {
    /// Path to the input raster file (PNG or JPEG).
    pub input: PathBuf,
    /// Output path for the generated .svg file.
    pub output: PathBuf,
    /// xBRZ scaling factor.
    pub scale: Scale,
    /// Group identical fill colours into single compound paths.
    pub merge_colors: bool,
    /// Report timing and size statistics.
    pub verbose: bool,
}

} // verus!
