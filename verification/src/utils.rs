use vstd::prelude::*;

use crate::store::bytes_eq;

verus! {

/// The compressed stream formats the toolkit recognizes by their leading
/// magic bytes.  Indexing and seeking require `Plain` input: compressed
/// byte offsets do not correspond to decompressed content offsets.
#[derive(Clone, Copy, Debug, PartialEq, Eq, Structural)]
pub enum CompressionFormat {
    Gzip,
    Bzip2,
    Xz,
    Zstd,
    Plain,
}

/// The magic-byte prefix of each format; empty for plain text.
pub open spec fn magic_spec(f: CompressionFormat) -> Seq<u8> {
    match f {
        CompressionFormat::Gzip => seq![0x1fu8, 0x8bu8, 0x08u8],
        CompressionFormat::Bzip2 => seq![0x42u8, 0x5au8, 0x68u8],
        CompressionFormat::Xz => seq![0xfdu8, 0x37u8, 0x7au8, 0x58u8, 0x5au8, 0x00u8],
        CompressionFormat::Zstd => seq![0x28u8, 0xb5u8, 0x2fu8, 0xfdu8],
        CompressionFormat::Plain => Seq::<u8>::empty(),
    }
}

/// Whether `buf` opens with the magic bytes of format `f`.
pub open spec fn matches_magic(f: CompressionFormat, buf: Seq<u8>) -> bool {
    buf.len() >= magic_spec(f).len() && buf.take(magic_spec(f).len() as int) == magic_spec(f)
}

/// The format `detect_compression` decides on: the first format whose
/// magic bytes open the buffer or whose conventional file extension
/// matches, in the fixed precedence gzip, bzip2, xz, zstd; else plain.
pub open spec fn detect_spec(buf: Seq<u8>, ext: Option<Seq<u8>>) -> CompressionFormat {
    if matches_magic(CompressionFormat::Gzip, buf) || ext == Some(seq![103u8, 122u8]) {
        CompressionFormat::Gzip
    } else if matches_magic(CompressionFormat::Bzip2, buf) || ext == Some(
        seq![98u8, 122u8, 50u8],
    ) {
        CompressionFormat::Bzip2
    } else if matches_magic(CompressionFormat::Xz, buf) || ext == Some(seq![120u8, 122u8]) {
        CompressionFormat::Xz
    } else if matches_magic(CompressionFormat::Zstd, buf) || ext == Some(
        seq![122u8, 115u8, 116u8],
    ) {
        CompressionFormat::Zstd
    } else {
        CompressionFormat::Plain
    }
}

impl CompressionFormat {
    /// The magic bytes this format is recognized by.
    pub fn magic_number(&self) -> (r: Vec<u8>)
        ensures
            r@ == magic_spec(*self),
    {
        let mut v: Vec<u8> = Vec::new();
        match self {
            CompressionFormat::Gzip => {
                v.push(0x1f);
                v.push(0x8b);
                v.push(0x08);
            },
            CompressionFormat::Bzip2 => {
                v.push(0x42);
                v.push(0x5a);
                v.push(0x68);
            },
            CompressionFormat::Xz => {
                v.push(0xfd);
                v.push(0x37);
                v.push(0x7a);
                v.push(0x58);
                v.push(0x5a);
                v.push(0x00);
            },
            CompressionFormat::Zstd => {
                v.push(0x28);
                v.push(0xb5);
                v.push(0x2f);
                v.push(0xfd);
            },
            CompressionFormat::Plain => {},
        }
        proof {
            assert(v@ =~= magic_spec(*self));
        }
        v
    }

    /// Whether `buffer` opens with this format's magic bytes.
    pub fn is_match(&self, buffer: &[u8]) -> (r: bool)
        ensures
            r == matches_magic(*self, buffer@),
    {
        let magic = self.magic_number();
        if buffer.len() < magic.len() {
            return false;
        }
        let r = bytes_eq(&buffer[0..magic.len()], magic.as_slice());
        proof {
            assert(buffer@.subrange(0, magic@.len() as int) =~= buffer@.take(
                magic_spec(*self).len() as int,
            ));
        }
        r
    }
}

/// Decides the stream format from the first bytes of a file (up to six)
/// and the file name's extension, magic bytes or extension either
/// sufficing, in the fixed precedence gzip, bzip2, xz, zstd, else plain.
pub fn detect_compression(buffer: &[u8], ext: Option<&[u8]>) -> (r: CompressionFormat)
    ensures
        r == detect_spec(
            buffer@,
            match ext {
                Some(e) => Some(e@),
                None => None::<Seq<u8>>,
            },
        ),
{
    let gz = ext_is2(ext, 103, 122);
    let bz2 = ext_is3(ext, 98, 122, 50);
    let xz = ext_is2(ext, 120, 122);
    let zst = ext_is3(ext, 122, 115, 116);
    if CompressionFormat::Gzip.is_match(buffer) || gz {
        CompressionFormat::Gzip
    } else if CompressionFormat::Bzip2.is_match(buffer) || bz2 {
        CompressionFormat::Bzip2
    } else if CompressionFormat::Xz.is_match(buffer) || xz {
        CompressionFormat::Xz
    } else if CompressionFormat::Zstd.is_match(buffer) || zst {
        CompressionFormat::Zstd
    } else {
        CompressionFormat::Plain
    }
}

/// Whether the extension is exactly the two given bytes.
fn ext_is2(ext: Option<&[u8]>, a: u8, b: u8) -> (r: bool)
    ensures
        r == (match ext {
            Some(e) => Some(e@),
            None => None::<Seq<u8>>,
        } == Some(seq![a, b])),
{
    match ext {
        Some(e) => {
            if e.len() == 2 {
                let r = e[0] == a && e[1] == b;
                proof {
                    if r {
                        assert(e@ =~= seq![a, b]);
                    } else {
                        assert(e@ != seq![a, b]) by {
                            if e@ == seq![a, b] {
                                assert(e@[0] == a && e@[1] == b);
                            }
                        }
                    }
                }
                r
            } else {
                proof {
                    assert(e@ != seq![a, b]);
                }
                false
            }
        },
        None => false,
    }
}

/// Whether the extension is exactly the three given bytes.
fn ext_is3(ext: Option<&[u8]>, a: u8, b: u8, c: u8) -> (r: bool)
    ensures
        r == (match ext {
            Some(e) => Some(e@),
            None => None::<Seq<u8>>,
        } == Some(seq![a, b, c])),
{
    match ext {
        Some(e) => {
            if e.len() == 3 {
                let r = e[0] == a && e[1] == b && e[2] == c;
                proof {
                    if r {
                        assert(e@ =~= seq![a, b, c]);
                    } else {
                        assert(e@ != seq![a, b, c]) by {
                            if e@ == seq![a, b, c] {
                                assert(e@[0] == a && e@[1] == b && e@[2] == c);
                            }
                        }
                    }
                }
                r
            } else {
                proof {
                    assert(e@ != seq![a, b, c]);
                }
                false
            }
        },
        None => false,
    }
}

} // verus!
