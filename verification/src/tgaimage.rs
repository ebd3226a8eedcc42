//! Decoding of truecolour and greyscale images, stored raw or run-length encoded.
//!
//! An image is an 18-byte header followed by the pixels. A raw image holds its
//! pixels one after the other. A run-length encoded image holds packets: a
//! control byte below 128 announces that many pixels plus one, stored as they
//! are; any other control byte announces one pixel, to be repeated that many
//! times less 127.

use crate::color::{bgr, grey};
use crate::error::LoadError;
use crate::pixmap::Pixmap;
use vstd::prelude::*;

verus! {

/// The length of the header in bytes.
pub const HEADERSIZE: usize = 18;

/// The fields of the header, in the order in which they are stored. The
/// two-byte fields are stored least significant byte first.
#[derive(Copy, Clone, Debug, PartialEq, Eq)]
pub struct TgaHeader {
    pub idlength: u8,
    pub colormaptype: u8,
    pub datatypecode: u8,
    pub colormaporigin: u16,
    pub colormaplength: u16,
    pub colormapdepth: u8,
    pub x_origin: u16,
    pub y_origin: u16,
    pub width: u16,
    pub height: u16,
    pub bitsperpixel: u8,
    pub imagedescriptor: u8,
}

/// The number whose least significant byte is `lo` and whose other byte is `hi`.
pub open spec fn le16(lo: u8, hi: u8) -> u16 {
    (lo + 256 * hi) as u16
}

/// The header that the first 18 bytes of `data` spell.
pub open spec fn header_of(data: Seq<u8>) -> TgaHeader
    recommends
        data.len() >= HEADERSIZE,
{
    TgaHeader {
        idlength: data[0],
        colormaptype: data[1],
        datatypecode: data[2],
        colormaporigin: le16(data[3], data[4]),
        colormaplength: le16(data[5], data[6]),
        colormapdepth: data[7],
        x_origin: le16(data[8], data[9]),
        y_origin: le16(data[10], data[11]),
        width: le16(data[12], data[13]),
        height: le16(data[14], data[15]),
        bitsperpixel: data[16],
        imagedescriptor: data[17],
    }
}

impl TgaHeader {
    /// The number of bytes that one pixel takes.
    pub open spec fn bytes_per_pixel(self) -> int {
        self.bitsperpixel as int / 8
    }

    /// The number of pixels of the image.
    pub open spec fn pixel_count(self) -> int {
        self.width as int * self.height as int
    }

    /// Whether the pixels are stored raw.
    pub open spec fn is_raw(self) -> bool {
        self.datatypecode == 2 || self.datatypecode == 3
    }

    /// Whether the pixels are stored in packets.
    pub open spec fn is_rle(self) -> bool {
        self.datatypecode == 10 || self.datatypecode == 11
    }

    /// Whether the first row stored is the top row of the picture, not the
    /// bottom one: bit 5 of the descriptor.
    pub open spec fn is_top_down(self) -> bool {
        self.imagedescriptor & 0x20 != 0
    }

    /// The place, among the rows as stored, of the row that lies `y` rows
    /// above the bottom of the picture.
    pub open spec fn stored_row(self, y: int) -> int {
        if self.is_top_down() {
            self.height - 1 - y
        } else {
            y
        }
    }
}

/// `n` copies of `pixel`, one after the other.
pub open spec fn repeated(pixel: Seq<u8>, n: int) -> Seq<u8>
    decreases n,
{
    if n <= 0 {
        Seq::empty()
    } else {
        repeated(pixel, n - 1) + pixel
    }
}

/// The bytes of the pixels that the packets at the start of `data` hold, read
/// until at least `pixels` pixels of `bytespp` bytes each are there; nothing
/// where `data` ends inside a packet or before enough packets.
pub open spec fn rle_decode(data: Seq<u8>, bytespp: int, pixels: int) -> Option<Seq<u8>>
    decreases pixels,
{
    if pixels <= 0 {
        Some(Seq::empty())
    } else if data.len() == 0 {
        None
    } else if data[0] < 128 {
        let n = data[0] + 1;
        if data.len() < 1 + n * bytespp {
            None
        } else if n >= pixels {
            Some(data.subrange(1, 1 + n * bytespp))
        } else {
            match rle_decode(data.skip(1 + n * bytespp), bytespp, pixels - n) {
                Some(rest) => Some(data.subrange(1, 1 + n * bytespp) + rest),
                None => None,
            }
        }
    } else {
        let n = data[0] - 127;
        if data.len() < 1 + bytespp {
            None
        } else if n >= pixels {
            Some(repeated(data.subrange(1, 1 + bytespp), n))
        } else {
            match rle_decode(data.skip(1 + bytespp), bytespp, pixels - n) {
                Some(rest) => Some(repeated(data.subrange(1, 1 + bytespp), n) + rest),
                None => None,
            }
        }
    }
}

/// One packet of a run-length encoded image: `count` pixels, either stored one
/// by one in `pixels` or all equal to the one pixel in `pixels`.
pub struct Packet {
    pub repeat: bool,
    pub count: int,
    pub pixels: Seq<u8>,
}

impl Packet {
    /// Whether the packet can be stored, for pixels of `bytespp` bytes.
    pub open spec fn well_formed(self, bytespp: int) -> bool {
        &&& 1 <= self.count <= 128
        &&& self.pixels.len() == if self.repeat {
            bytespp
        } else {
            self.count * bytespp
        }
    }

    /// The packet as stored: its control byte, then its pixels.
    pub open spec fn encoded(self) -> Seq<u8> {
        seq![
            if self.repeat {
                (self.count + 127) as u8
            } else {
                (self.count - 1) as u8
            },
        ] + self.pixels
    }

    /// The pixels that the packet stands for.
    pub open spec fn expanded(self) -> Seq<u8> {
        if self.repeat {
            repeated(self.pixels, self.count)
        } else {
            self.pixels
        }
    }
}

/// The packets `packets` as stored, one after the other.
pub open spec fn rle_encode(packets: Seq<Packet>) -> Seq<u8>
    decreases packets.len(),
{
    if packets.len() == 0 {
        Seq::empty()
    } else {
        packets[0].encoded() + rle_encode(packets.skip(1))
    }
}

/// The pixels that the packets `packets` stand for, one after the other.
pub open spec fn rle_expand(packets: Seq<Packet>) -> Seq<u8>
    decreases packets.len(),
{
    if packets.len() == 0 {
        Seq::empty()
    } else {
        packets[0].expanded() + rle_expand(packets.skip(1))
    }
}

/// The number of pixels that the packets `packets` stand for.
pub open spec fn rle_pixels(packets: Seq<Packet>) -> int
    decreases packets.len(),
{
    if packets.len() == 0 {
        0
    } else {
        packets[0].count + rle_pixels(packets.skip(1))
    }
}

/// However a run of pixels is cut into packets, unpacking the stored packets
/// gives the run back, whatever bytes follow them.
pub proof fn lemma_rle_round_trip(packets: Seq<Packet>, bytespp: int, trailing: Seq<u8>)
    requires
        0 <= bytespp,
        forall|i: int| 0 <= i < packets.len() ==> (#[trigger] packets[i]).well_formed(bytespp),
    ensures
        0 <= rle_pixels(packets),
        packets.len() > 0 ==> 0 < rle_pixels(packets),
        rle_decode(rle_encode(packets) + trailing, bytespp, rle_pixels(packets)) == Some(
            rle_expand(packets),
        ),
    decreases packets.len(),
{
    if packets.len() > 0 {
        let first = packets[0];
        let rest = packets.skip(1);
        assert(first.well_formed(bytespp));
        assert forall|i: int| 0 <= i < rest.len() implies (#[trigger] rest[i]).well_formed(
            bytespp,
        ) by {
            assert(rest[i] == packets[i + 1]);
        }
        lemma_rle_round_trip(rest, bytespp, trailing);
        let data = rle_encode(packets) + trailing;
        let n = first.count;
        assert(0 <= n * bytespp) by (nonlinear_arith)
            requires
                0 <= n,
                0 <= bytespp,
        ;
        assert(data[0] == first.encoded()[0]);
        let used = first.pixels.len() as int;
        assert(data.subrange(1, 1 + used) =~= first.pixels);
        assert(data.skip(1 + used) =~= rle_encode(rest) + trailing);
        if rest.len() == 0 {
            assert(rle_expand(packets) =~= first.expanded());
        }
    }
}

/// The colour of pixel `index` of the pixel bytes `stream`. A pixel of one
/// byte is a grey level. A pixel of three or four bytes holds blue, green and
/// red, and a fourth byte that is passed over. A pixel of any other size has
/// colour 0.
pub open spec fn packed(stream: Seq<u8>, bytespp: int, index: int) -> i32 {
    if bytespp == 1 {
        grey(stream[index])
    } else if bytespp == 3 || bytespp == 4 {
        bgr(stream[index * bytespp], stream[index * bytespp + 1], stream[index * bytespp + 2])
    } else {
        0
    }
}

/// The bytes of the pixels of the image `data`, header and encoding taken
/// off; nothing where a run-length encoded image ends too early.
pub open spec fn pixel_bytes(data: Seq<u8>) -> Option<Seq<u8>>
    recommends
        data.len() >= HEADERSIZE,
{
    let header = header_of(data);
    if header.is_rle() {
        rle_decode(data.skip(HEADERSIZE as int), header.bytes_per_pixel(), header.pixel_count())
    } else {
        Some(data.skip(HEADERSIZE as int))
    }
}

/// Why the image `data` cannot be decoded, or nothing where it can.
pub open spec fn failure(data: Seq<u8>) -> Option<LoadError> {
    if data.len() < HEADERSIZE {
        Some(LoadError::Truncated)
    } else if !header_of(data).is_raw() && !header_of(data).is_rle() {
        Some(LoadError::UnsupportedType)
    } else {
        let header = header_of(data);
        let bytespp = header.bytes_per_pixel();
        match pixel_bytes(data) {
            None => Some(LoadError::Truncated),
            Some(stream) => if (bytespp == 1 || bytespp == 3 || bytespp == 4) && stream.len()
                < header.pixel_count() * bytespp {
                Some(LoadError::Truncated)
            } else {
                None
            },
        }
    }
}

/// Whether `image` is the picture that the image `data` holds: of the width
/// and height that the header gives, with row 0 at the bottom of the picture.
pub open spec fn shows(image: Pixmap, data: Seq<u8>) -> bool
    recommends
        failure(data) is None,
{
    let header = header_of(data);
    &&& image.width() == header.width
    &&& image.height() == header.height
    &&& forall|x: int, y: int|
        image.contains(x, y) ==> #[trigger] image.cell(x, y) == packed(
            pixel_bytes(data).unwrap(),
            header.bytes_per_pixel(),
            header.stored_row(y) * header.width + x,
        )
}

/// A decoder of images.
pub trait ImageLoader {
    /// Decodes the image that the bytes `data` hold.
    fn load(data: &[u8]) -> Result<Pixmap, LoadError>;
}

/// The place from which an image is loaded.
pub struct TgaImage;

impl TgaImage {
    /// Reads the header at the start of `data`.
    pub fn read_header(data: &[u8]) -> (r: Result<TgaHeader, LoadError>)
        ensures
            data@.len() < HEADERSIZE ==> r == Err::<TgaHeader, LoadError>(LoadError::Truncated),
            data@.len() >= HEADERSIZE ==> r == Ok::<TgaHeader, LoadError>(header_of(data@)),
    {
        if data.len() < HEADERSIZE {
            return Err(LoadError::Truncated);
        }
        Ok(
            TgaHeader {
                idlength: data[0],
                colormaptype: data[1],
                datatypecode: data[2],
                colormaporigin: Self::read_u16(data[3], data[4]),
                colormaplength: Self::read_u16(data[5], data[6]),
                colormapdepth: data[7],
                x_origin: Self::read_u16(data[8], data[9]),
                y_origin: Self::read_u16(data[10], data[11]),
                width: Self::read_u16(data[12], data[13]),
                height: Self::read_u16(data[14], data[15]),
                bitsperpixel: data[16],
                imagedescriptor: data[17],
            },
        )
    }

    fn read_u16(lo: u8, hi: u8) -> (v: u16)
        ensures
            v == le16(lo, hi),
    {
        lo as u16 + 256 * (hi as u16)
    }

    /// Whether `count` pixels of `bytespp` bytes each take more than `room` bytes.
    fn exceeds(count: usize, bytespp: usize, room: usize) -> (b: bool)
        requires
            1 <= count,
        ensures
            b == (count * bytespp > room),
    {
        let most = room / count;
        proof {
            vstd::arithmetic::div_mod::lemma_fundamental_div_mod(room as int, count as int);
            vstd::arithmetic::div_mod::lemma_mod_bound(room as int, count as int);
            if bytespp > most {
                assert(count * bytespp >= count * (most + 1)) by (nonlinear_arith)
                    requires
                        bytespp >= most + 1,
                        count >= 1,
                ;
                assert(count * (most + 1) == count * most + count) by (nonlinear_arith);
            } else {
                assert(count * bytespp <= count * most) by (nonlinear_arith)
                    requires
                        bytespp <= most,
                        count >= 1,
                ;
            }
        }
        bytespp > most
    }

    /// Unpacks the packets at the start of `inp` onto the end of `out`, until
    /// at least `pixelcount` pixels of `bytespp` bytes each are unpacked.
    #[verifier::rlimit(40)]
    pub fn read_rle(pixelcount: usize, bytespp: usize, inp: &[u8], out: &mut Vec<u8>) -> (r: Result<
        (),
        LoadError,
    >)
        ensures
            match rle_decode(inp@, bytespp as int, pixelcount as int) {
                Some(pixels) => r is Ok && final(out)@ == old(out)@ + pixels,
                None => r == Err::<(), LoadError>(LoadError::Truncated),
            },
    {
        let mut pos: usize = 0;
        let mut pix: usize = 0;
        let ghost mut unpacked: Seq<u8> = Seq::empty();
        proof {
            assert(inp@.skip(0) =~= inp@);
            assert(old(out)@ + unpacked =~= old(out)@);
        }
        while pix < pixelcount
            invariant
                pos <= inp@.len(),
                pix <= pixelcount,
                out@ == old(out)@ + unpacked,
                match rle_decode(inp@.skip(pos as int), bytespp as int, pixelcount - pix) {
                    Some(rest) => rle_decode(inp@, bytespp as int, pixelcount as int) == Some(
                        unpacked + rest,
                    ),
                    None => rle_decode(inp@, bytespp as int, pixelcount as int) is None,
                },
            decreases pixelcount - pix,
        {
            let ghost tail = inp@.skip(pos as int);
            if pos >= inp.len() {
                return Err(LoadError::Truncated);
            }
            let mut chunkheader = inp[pos] as usize;
            assert(tail[0] == inp@[pos as int]);
            pos += 1;
            if chunkheader < 128 {
                chunkheader += 1;
                if Self::exceeds(chunkheader, bytespp, inp.len() - pos) {
                    return Err(LoadError::Truncated);
                }
                let endpos = pos + chunkheader * bytespp;
                let ghost start = pos;
                while pos < endpos
                    invariant
                        start <= pos <= endpos <= inp@.len(),
                        out@ == old(out)@ + unpacked + inp@.subrange(start as int, pos as int),
                    decreases endpos - pos,
                {
                    out.push(inp[pos]);
                    pos += 1;
                    assert(inp@.subrange(start as int, pos as int) =~= inp@.subrange(
                        start as int,
                        pos - 1,
                    ).push(inp@[pos - 1]));
                }
                proof {
                    assert(inp@.subrange(start as int, endpos as int) =~= tail.subrange(
                        1,
                        1 + chunkheader * bytespp,
                    ));
                    unpacked = unpacked + inp@.subrange(start as int, endpos as int);
                    assert(tail.skip(1 + chunkheader * bytespp) =~= inp@.skip(pos as int));
                }
            } else {
                chunkheader -= 127;
                if bytespp > inp.len() - pos {
                    return Err(LoadError::Truncated);
                }
                let ghost pixel = inp@.subrange(pos as int, pos + bytespp);
                for i in 0..chunkheader
                    invariant
                        pos + bytespp <= inp@.len() <= usize::MAX,
                        pixel == inp@.subrange(pos as int, pos + bytespp),
                        out@ == old(out)@ + unpacked + repeated(pixel, i as int),
                {
                    for j in 0..bytespp
                        invariant
                            pos + bytespp <= inp@.len() <= usize::MAX,
                            pixel == inp@.subrange(pos as int, pos + bytespp),
                            out@ == old(out)@ + unpacked + repeated(pixel, i as int)
                                + pixel.subrange(0, j as int),
                    {
                        out.push(inp[pos + j]);
                        assert(pixel.subrange(0, j + 1) =~= pixel.subrange(0, j as int).push(
                            inp@[pos + j],
                        ));
                    }
                    assert(pixel.subrange(0, bytespp as int) =~= pixel);
                    assert(repeated(pixel, i + 1) == repeated(pixel, i as int) + pixel);
                }
                proof {
                    assert(pixel =~= tail.subrange(1, 1 + bytespp));
                    unpacked = unpacked + repeated(pixel, chunkheader as int);
                    assert(tail.skip(1 + bytespp) =~= inp@.skip(pos + bytespp));
                }
                pos += bytespp;
            }
            proof {
                assert(unpacked + Seq::<u8>::empty() =~= unpacked);
            }
            if chunkheader >= pixelcount - pix {
                pix = pixelcount;
            } else {
                pix += chunkheader;
            }
        }

        Ok(())
    }
}

impl TgaImage {
    /// The colour of pixel `index` of the pixel bytes `stream`.
    fn pack(stream: &[u8], bytespp: usize, index: usize) -> (v: i32)
        requires
            (bytespp == 1 || bytespp == 3 || bytespp == 4) ==> (index + 1) * bytespp
                <= stream@.len(),
        ensures
            v == packed(stream@, bytespp as int, index as int),
    {
        let len = stream.len();
        proof {
            assert((index + 1) * bytespp == index * bytespp + bytespp) by (nonlinear_arith);
            assert(0 <= index * bytespp) by (nonlinear_arith);
        }
        if bytespp == 1 {
            let intensity = stream[index] as i32;
            intensity + 256 * intensity + 65536 * intensity
        } else if bytespp == 3 || bytespp == 4 {
            let at = index * bytespp;
            stream[at] as i32 + 256 * (stream[at + 1] as i32) + 65536 * (stream[at + 2] as i32)
        } else {
            0
        }
    }

    /// The picture that the pixel bytes `stream` hold under the header `header`.
    #[verifier::rlimit(40)]
    fn assemble(header: &TgaHeader, stream: &[u8]) -> (image: Pixmap)
        requires
            ({
                let bytespp = header.bytes_per_pixel();
                (bytespp == 1 || bytespp == 3 || bytespp == 4) ==> header.pixel_count() * bytespp
                    <= stream@.len()
            }),
        ensures
            image.width() == header.width,
            image.height() == header.height,
            forall|x: int, y: int|
                image.contains(x, y) ==> #[trigger] image.cell(x, y) == packed(
                    stream@,
                    header.bytes_per_pixel(),
                    header.stored_row(y) * header.width + x,
                ),
    {
        let w = header.width as usize;
        let h = header.height as usize;
        let bpp = (header.bitsperpixel / 8) as usize;
        let top_down = (header.imagedescriptor & 0x20) != 0;
        assert(w * h <= 65535 * 65535) by (nonlinear_arith)
            requires
                w <= 65535,
                h <= 65535,
        ;

        let mut pixmap = Pixmap::new(w, h, 0);

        for y in 0..h
            invariant
                w == header.width,
                h == header.height,
                w * h <= usize::MAX,
                bpp == header.bytes_per_pixel(),
                top_down == header.is_top_down(),
                pixmap.width() == w,
                pixmap.height() == h,
                (bpp == 1 || bpp == 3 || bpp == 4) ==> w * h * bpp <= stream@.len(),
                forall|cx: int, cy: int|
                    0 <= cx < w && 0 <= cy < y ==> #[trigger] pixmap.cell(cx, cy) == packed(
                        stream@,
                        bpp as int,
                        header.stored_row(cy) * w + cx,
                    ),
                forall|cx: int, cy: int|
                    0 <= cx < w && y <= cy < h ==> #[trigger] pixmap.cell(cx, cy) == 0,
        {
            let row = if top_down {
                h - 1 - y
            } else {
                y
            };
            for x in 0..w
                invariant
                    w == header.width,
                    h == header.height,
                    bpp == header.bytes_per_pixel(),
                    y < h,
                    row < h,
                    w * h <= usize::MAX,
                    row == header.stored_row(y as int),
                    pixmap.width() == w,
                    pixmap.height() == h,
                    (bpp == 1 || bpp == 3 || bpp == 4) ==> w * h * bpp <= stream@.len(),
                    forall|cx: int, cy: int|
                        0 <= cx < w && 0 <= cy < y ==> #[trigger] pixmap.cell(cx, cy) == packed(
                            stream@,
                            bpp as int,
                            header.stored_row(cy) * w + cx,
                        ),
                    forall|cx: int|
                        0 <= cx < x ==> #[trigger] pixmap.cell(cx, y as int) == packed(
                            stream@,
                            bpp as int,
                            row * w + cx,
                        ),
                    forall|cx: int| x <= cx < w ==> #[trigger] pixmap.cell(cx, y as int) == 0,
                    forall|cx: int, cy: int|
                        0 <= cx < w && y < cy < h ==> #[trigger] pixmap.cell(cx, cy) == 0,
            {
                proof {
                    crate::pixmap::lemma_row_in_grid(w as int, h as int, row as int);
                    assert((row * w + x + 1) * bpp <= w * h * bpp) by (nonlinear_arith)
                        requires
                            row * w + x + 1 <= w * h,
                            0 <= bpp,
                    ;
                }
                let value = Self::pack(stream, bpp, row * w + x);
                pixmap.set(x, y, value);
            }
        }

        pixmap
    }
}

impl ImageLoader for TgaImage {
    /// Decodes the image that the bytes `data` hold. Succeeds on every image
    /// that is stored raw or run-length encoded and holds all of its pixels.
    fn load(data: &[u8]) -> (r: Result<Pixmap, LoadError>)
        ensures
            match r {
                Ok(image) => failure(data@) is None && shows(image, data@),
                Err(e) => failure(data@) == Some(e),
            },
    {
        let header = match Self::read_header(data) {
            Ok(header) => header,
            Err(e) => {
                return Err(e);
            },
        };
        let w = header.width as u64;
        let h = header.height as u64;
        let bpp = (header.bitsperpixel / 8) as usize;
        assert(w * h <= 65535 * 65535) by (nonlinear_arith)
            requires
                w <= 65535,
                h <= 65535,
        ;
        let pixelcount = (w * h) as usize;

        let payload = vstd::slice::slice_subrange(data, HEADERSIZE, data.len());
        assert(payload@ =~= data@.skip(HEADERSIZE as int));
        let mut buffer: Vec<u8> = Vec::new();
        let stream: &[u8] = match header.datatypecode {
            2 | 3 => payload,
            10 | 11 => {
                match Self::read_rle(pixelcount, bpp, payload, &mut buffer) {
                    Ok(()) => {},
                    Err(e) => {
                        return Err(e);
                    },
                }
                assert(buffer@ =~= pixel_bytes(data@).unwrap());
                buffer.as_slice()
            },
            _ => {
                return Err(LoadError::UnsupportedType);
            },
        };

        if bpp == 1 || bpp == 3 || bpp == 4 {
            assert(w * h * bpp <= 65535 * 65535 * 4) by (nonlinear_arith)
                requires
                    w * h <= 65535 * 65535,
                    bpp <= 4,
            ;
            if (stream.len() as u64) < w * h * (bpp as u64) {
                return Err(LoadError::Truncated);
            }
        }
        Ok(Self::assemble(&header, stream))
    }
}

} // verus!
