use vstd::prelude::*;
use crate::text::same_text;

verus! {

/// Compression formats recognised on input and offered on output.
#[derive(Debug, Clone, Copy, PartialEq, Eq, Structural)]
pub enum CompressionFormat {
    Gzip,
    Bzip,
    Lzma,
    No,
}

/// Errors of the stream factory.
#[derive(Debug, Clone, Copy, PartialEq, Eq, Structural)]
pub enum OCFError {
    FeatureDisabled,
}

/// Format announced by the first five bytes of a stream.
pub open spec fn format_of_magic(head: Seq<u8>) -> CompressionFormat {
    if head[0] == 0xFD && head[1] == 0x37 && head[2] == 0x7A && head[3] == 0x58 && head[4] == 0x5A {
        CompressionFormat::Lzma
    } else if head[0] == 0x1F && head[1] == 0x8B {
        CompressionFormat::Gzip
    } else if head[0] == 0x42 && head[1] == 0x5A {
        CompressionFormat::Bzip
    } else {
        CompressionFormat::No
    }
}

/// Detects the compression format from the first five bytes of a stream.
pub fn get_compression(head: &[u8]) -> (r: CompressionFormat)
    requires
        head@.len() >= 5,
    ensures
        r == format_of_magic(head@),
{
    if head[0] == 0xFD && head[1] == 0x37 && head[2] == 0x7A && head[3] == 0x58 && head[4] == 0x5A {
        CompressionFormat::Lzma
    } else if head[0] == 0x1F && head[1] == 0x8B {
        CompressionFormat::Gzip
    } else if head[0] == 0x42 && head[1] == 0x5A {
        CompressionFormat::Bzip
    } else {
        CompressionFormat::No
    }
}

/// The output format: the input's when none was asked for, else the one named
/// (`gzip`, `bzip2`, `lzma`), and no compression for any other name.
pub open spec fn chosen_format(input: CompressionFormat, set: bool, value: Seq<char>) -> CompressionFormat {
    if !set {
        input
    } else if value == seq!['g', 'z', 'i', 'p'] {
        CompressionFormat::Gzip
    } else if value == seq!['b', 'z', 'i', 'p', '2'] {
        CompressionFormat::Bzip
    } else if value == seq!['l', 'z', 'm', 'a'] {
        CompressionFormat::Lzma
    } else {
        CompressionFormat::No
    }
}

/// Picks the format of an output stream.
pub fn choose_compression(input_compression: CompressionFormat, compression_set: bool, compression_value: &str) -> (r: CompressionFormat)
    ensures
        r == chosen_format(input_compression, compression_set, compression_value@),
{
    proof {
        reveal_strlit("gzip");
        reveal_strlit("bzip2");
        reveal_strlit("lzma");
        assert("gzip"@ =~= seq!['g', 'z', 'i', 'p']);
        assert("bzip2"@ =~= seq!['b', 'z', 'i', 'p', '2']);
        assert("lzma"@ =~= seq!['l', 'z', 'm', 'a']);
    }
    if !compression_set {
        input_compression
    } else if same_text(compression_value, "gzip") {
        CompressionFormat::Gzip
    } else if same_text(compression_value, "bzip2") {
        CompressionFormat::Bzip
    } else if same_text(compression_value, "lzma") {
        CompressionFormat::Lzma
    } else {
        CompressionFormat::No
    }
}

} // verus!
