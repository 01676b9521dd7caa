//! The read-only distribution container: all pages of a database, in
//! compressed frames of consecutive pages.
//!
//! A header, a directory of the frames, the directory's checksum, and the
//! frames. All numbers are little-endian.

use vstd::prelude::*;

use crate::bytes;
use crate::bytes::{get_le, put_bytes, put_le};
use crate::checksum;
use crate::checksum::crc32c;
use crate::error::{corrupt, invalid_argument, io_error, DevonResult, ErrorKind};
use crate::superblock;
use crate::superblock::valid_page_size;
use crate::text;
use crate::text::{and_name, and_number, checksum_text, with_name, with_number};

verus! {

/// The container version that is read and written.
pub const CONTAINER_VERSION: u8 = 1;

/// The codec that is read and written: zstd.
pub const CODEC_ZSTD: u16 = 1;

/// How many pages a frame has where the writer has no opinion.
pub const DEFAULT_FRAME_PAGES: u32 = 256;

/// The bytes of the header.
pub const HEADER_LEN: usize = 40;

/// The bytes of a directory entry.
pub const DIRECTORY_ENTRY_LEN: usize = 16;

/// The bytes of the directory's checksum.
pub const DIRECTORY_CRC_LEN: usize = 4;

/// The first nine bytes of a container.
pub open spec fn magic() -> Seq<u8> {
    seq![0x44u8, 0x45, 0x56, 0x4f, 0x4e, 0x50, 0x41, 0x43, 0x4b]
}

/// What zstd makes of compressed bytes, where they are a frame of its.
pub uninterp spec fn unzstd(data: Seq<u8>) -> Option<Seq<u8>>;

/// What zstd compresses bytes to at its default level, where it does.
pub uninterp spec fn zstd_of(frame: Seq<u8>) -> Option<Seq<u8>>;

/// Whether the buffer that compressing asks for, at most a 256th of the bytes and 64 more than the
/// bytes themselves, can be had.
pub open spec fn compressible(len: nat) -> bool {
    len + len / 256 + 64 <= isize::MAX
}

/// `zstd::bulk::compress` at `zstd::DEFAULT_COMPRESSION_LEVEL`. Claimed: what comes back, and
/// whether anything does, depends on the bytes alone, running out of memory aside; and it
/// decompresses to the bytes again. Nothing is claimed of what is said where nothing comes back. A
/// buffer beyond `isize::MAX` panics.
#[verifier::external_body]
fn compress(frame: &[u8]) -> (result: Result<Vec<u8>, String>)
    requires
        compressible(frame@.len()),
    ensures
        match result {
            Ok(data) => zstd_of(frame@) == Some(data@) && unzstd(data@) == Some(frame@),
            Err(_) => zstd_of(frame@) is None,
        },
{
    zstd::bulk::compress(frame, zstd::DEFAULT_COMPRESSION_LEVEL).map_err(|error| error.to_string())
}

/// `zstd::bulk::decompress`. Claimed: what comes back is what the bytes
/// decompress to, and it does come back where that has at most `capacity`
/// bytes. Whether more than that comes back is not claimed, nor what is said
/// where nothing does. A capacity beyond `isize::MAX` panics.
#[verifier::external_body]
fn decompress(data: &[u8], capacity: usize) -> (result: Result<Vec<u8>, String>)
    requires
        capacity <= isize::MAX,
    ensures
        match result {
            Ok(frame) => unzstd(data@) == Some(frame@),
            Err(_) => unzstd(data@) is None || unzstd(data@)->Some_0.len() > capacity,
        },
{
    zstd::bulk::decompress(data, capacity).map_err(|error| error.to_string())
}

/// Where a frame's compressed bytes are, and their checksum.
#[derive(Debug, Clone, Copy, PartialEq, Eq, Structural)]
pub struct FrameEntry {
    pub offset: u64,
    pub compressed_len: u32,
    pub crc32c: u32,
}

/// The bytes of the header that its checksum covers.
pub open spec fn checked_header(
    page_size: u32,
    page_count: u64,
    frame_pages: u32,
    frame_count: u64,
) -> Seq<u8> {
    magic() + seq![CONTAINER_VERSION] + bytes::le_bytes(CODEC_ZSTD as nat, 2) + bytes::le_bytes(
        page_size as nat,
        4,
    ) + bytes::le_bytes(page_count as nat, 8) + bytes::le_bytes(frame_pages as nat, 4)
        + bytes::le_bytes(frame_count as nat, 8)
}

/// The bytes of the header.
pub open spec fn header_bytes(
    page_size: u32,
    page_count: u64,
    frame_pages: u32,
    frame_count: u64,
) -> Seq<u8> {
    let checked = checked_header(page_size, page_count, frame_pages, frame_count);
    checked + bytes::le_bytes(checksum::crc32c_of(checked) as nat, 4)
}

/// The bytes of a directory entry.
pub open spec fn entry_bytes(entry: FrameEntry) -> Seq<u8> {
    bytes::le_bytes(entry.offset as nat, 8) + bytes::le_bytes(entry.compressed_len as nat, 4)
        + bytes::le_bytes(entry.crc32c as nat, 4)
}

/// The bytes of directory entries.
pub open spec fn directory_bytes(entries: Seq<FrameEntry>) -> Seq<u8>
    decreases entries.len(),
{
    if entries.len() == 0 {
        Seq::empty()
    } else {
        directory_bytes(entries.drop_last()) + entry_bytes(entries.last())
    }
}

/// Frames one behind the other.
pub open spec fn frames_bytes(frames: Seq<Seq<u8>>) -> Seq<u8>
    decreases frames.len(),
{
    if frames.len() == 0 {
        Seq::empty()
    } else {
        frames_bytes(frames.drop_last()) + frames.last()
    }
}

/// Where the first frame is.
pub open spec fn first_frame(frame_count: nat) -> nat {
    HEADER_LEN as nat + frame_count * DIRECTORY_ENTRY_LEN as nat + DIRECTORY_CRC_LEN as nat
}

/// The entry of a frame.
pub open spec fn entry_of(frames: Seq<Seq<u8>>, i: int) -> FrameEntry {
    FrameEntry {
        offset: (first_frame(frames.len()) + frames_bytes(frames.subrange(0, i)).len()) as u64,
        compressed_len: frames[i].len() as u32,
        crc32c: checksum::crc32c_of(frames[i]),
    }
}

/// The entries of frames.
pub open spec fn entries_of(frames: Seq<Seq<u8>>) -> Seq<FrameEntry> {
    Seq::new(frames.len(), |i: int| entry_of(frames, i))
}

/// The bytes of a container.
pub open spec fn container(
    page_size: u32,
    page_count: u64,
    frame_pages: u32,
    frames: Seq<Seq<u8>>,
) -> Seq<u8> {
    let directory = directory_bytes(entries_of(frames));
    header_bytes(page_size, page_count, frame_pages, frames.len() as u64) + directory
        + bytes::le_bytes(checksum::crc32c_of(directory) as nat, 4) + frames_bytes(frames)
}

/// Whether frames can be told apart in a container: their lengths and places
/// can be written.
pub open spec fn frames_fit(frames: Seq<Seq<u8>>) -> bool {
    &&& forall|i: int| 0 <= i < frames.len() ==> (#[trigger] frames[i]).len() <= u32::MAX
    &&& first_frame(frames.len()) + frames_bytes(frames).len() <= u64::MAX
}

/// How many frames so many pages take.
pub open spec fn frame_total(page_count: nat, frame_pages: nat) -> nat {
    ((page_count + frame_pages - 1) / frame_pages as int) as nat
}

/// The bytes of pages that a frame holds.
pub open spec fn frame_of(image: Seq<u8>, frame_len: nat, i: int) -> Seq<u8> {
    let from = i * frame_len;
    let to = if from + frame_len <= image.len() {
        from + frame_len
    } else {
        image.len() as int
    };
    image.subrange(from, to)
}

/// Whether frames decompress to the pages of an image, in order.
pub open spec fn frames_hold(frames: Seq<Seq<u8>>, image: Seq<u8>, frame_len: nat) -> bool {
    forall|i: int|
        0 <= i < frames.len() ==> unzstd(#[trigger] frames[i]) == Some(
            frame_of(image, frame_len, i),
        )
}

/// Whether zstd compresses each of the first `n` frames of an image.
pub open spec fn all_compress(image: Seq<u8>, frame_len: nat, n: nat) -> bool {
    forall|i: int|
        0 <= i < n ==> zstd_of(#[trigger] frame_of(image, frame_len, i)) is Some
}

/// The first `n` frames of an image, compressed.
pub open spec fn compressed_frames(image: Seq<u8>, frame_len: nat, n: nat) -> Seq<Seq<u8>> {
    Seq::new(n, |i: int| zstd_of(frame_of(image, frame_len, i))->Some_0)
}

/// What lists of bytes hold.
pub open spec fn lists(frames: Seq<Vec<u8>>) -> Seq<Seq<u8>> {
    frames.map_values(|frame: Vec<u8>| frame@)
}

/// What is read of a container.
#[verifier::ext_equal]
pub struct PackView {
    pub page_size: u32,
    pub page_count: u64,
    pub frame_pages: u32,
    pub entries: Seq<FrameEntry>,
}

/// The entry that bytes spell.
pub open spec fn entry_at(data: Seq<u8>, i: int) -> FrameEntry {
    let base = HEADER_LEN + i * DIRECTORY_ENTRY_LEN;
    FrameEntry {
        offset: bytes::le_at(data, base, 8) as u64,
        compressed_len: bytes::le_at(data, base + 8, 4) as u32,
        crc32c: bytes::le_at(data, base + 12, 4) as u32,
    }
}

/// Whether a header is one.
pub open spec fn header_holds(data: Seq<u8>) -> bool {
    &&& data.len() >= HEADER_LEN
    &&& data.subrange(0, 9) == magic()
    &&& data[9] == CONTAINER_VERSION
    &&& bytes::le_at(data, 10, 2) == CODEC_ZSTD
    &&& bytes::le_at(data, 36, 4) == checksum::crc32c_of(data.subrange(0, 36))
    &&& superblock::is_page_size(bytes::le_at(data, 12, 4) as u32)
}

/// Whether a directory of so many frames is one.
pub open spec fn directory_holds(data: Seq<u8>, count: nat) -> bool {
    let end = HEADER_LEN + count * DIRECTORY_ENTRY_LEN;
    &&& first_frame(count) <= data.len()
    &&& bytes::le_at(data, end, 4) == checksum::crc32c_of(data.subrange(HEADER_LEN as int, end))
}

/// Whether an entry's bytes are behind the directory and in the file.
pub open spec fn entry_inside(data: Seq<u8>, count: nat, entry: FrameEntry) -> bool {
    first_frame(count) <= entry.offset && entry.offset + entry.compressed_len <= data.len()
}

/// What a container says; nothing where it is none.
pub open spec fn pack_of(data: Seq<u8>) -> Option<PackView> {
    let page_count = bytes::le_at(data, 16, 8);
    let frame_pages = bytes::le_at(data, 24, 4);
    let count = bytes::le_at(data, 28, 8);
    if header_holds(data) && directory_holds(data, count) && frame_pages != 0 && frame_total(
        page_count,
        frame_pages,
    ) == count && (forall|i: int|
        0 <= i < count ==> entry_inside(data, count, #[trigger] entry_at(data, i))) {
        Some(
            PackView {
                page_size: bytes::le_at(data, 12, 4) as u32,
                page_count: page_count as u64,
                frame_pages: frame_pages as u32,
                entries: Seq::new(count, |i: int| entry_at(data, i)),
            },
        )
    } else {
        None
    }
}

impl PackView {
    /// The bytes of a full frame's pages.
    pub open spec fn frame_len(self) -> nat {
        self.frame_pages as nat * self.page_size as nat
    }

    /// The bytes of all pages.
    pub open spec fn total_len(self) -> nat {
        self.page_count as nat * self.page_size as nat
    }

    /// The bytes of a frame's pages; the last frame may be short.
    pub open spec fn expected_len(self, i: int) -> nat {
        let left = self.total_len() - i * self.frame_len();
        if self.frame_len() <= left {
            self.frame_len()
        } else {
            left as nat
        }
    }
}

/// The pages that a frame of a container holds; nothing where its bytes are
/// damaged, or too many for memory.
pub open spec fn read_back(data: Seq<u8>, pack: PackView, i: int) -> Option<Seq<u8>> {
    let entry = pack.entries[i];
    let compressed = data.subrange(entry.offset as int, entry.offset + entry.compressed_len);
    if checksum::crc32c_of(compressed) != entry.crc32c || pack.expected_len(i) > isize::MAX {
        None
    } else {
        match unzstd(compressed) {
            Some(frame) => if frame.len() == pack.expected_len(i) {
                Some(frame)
            } else {
                None
            },
            None => None,
        }
    }
}

/// A frame number below the count names pages.
proof fn lemma_frame_inside(page_count: nat, frame_pages: nat, i: int)
    requires
        frame_pages > 0,
        0 <= i < frame_total(page_count, frame_pages),
    ensures
        i * frame_pages < page_count,
        0 <= i * frame_pages,
{
    let total = (page_count + frame_pages - 1) / frame_pages as int;
    assert(total * frame_pages <= page_count + frame_pages - 1) by (nonlinear_arith)
        requires
            total == (page_count + frame_pages - 1) / frame_pages as int,
            frame_pages > 0,
    ;
    assert(i * frame_pages <= (total - 1) * frame_pages) by (nonlinear_arith)
        requires
            i <= total - 1,
            frame_pages > 0,
    ;
    assert((total - 1) * frame_pages == total * frame_pages - frame_pages) by (nonlinear_arith);
    assert(0 <= i * frame_pages) by (nonlinear_arith)
        requires
            0 <= i,
            frame_pages > 0,
    ;
}

/// Cuts the bytes from one place to another out.
fn cut(data: &Vec<u8>, from: usize, to: usize) -> (part: Vec<u8>)
    requires
        from <= to <= data@.len(),
    ensures
        part@ == data@.subrange(from as int, to as int),
{
    let mut part: Vec<u8> = Vec::new();
    let mut i: usize = from;
    while i < to
        invariant
            from <= i <= to <= data@.len(),
            part@ == data@.subrange(from as int, i as int),
        decreases to - i,
    {
        part.push(data[i]);
        assert(part@ =~= data@.subrange(from as int, i + 1));
        i += 1;
    }
    part
}

fn put_magic(out: &mut Vec<u8>)
    ensures
        final(out)@ == old(out)@ + magic(),
{
    out.push(0x44);
    out.push(0x45);
    out.push(0x56);
    out.push(0x4f);
    out.push(0x4e);
    out.push(0x50);
    out.push(0x41);
    out.push(0x43);
    out.push(0x4b);
    assert(out@ =~= old(out)@ + magic());
}

fn write_header(page_size: u32, page_count: u64, frame_pages: u32, frame_count: u64) -> (header: Vec<
    u8,
>)
    ensures
        header@ == header_bytes(page_size, page_count, frame_pages, frame_count),
{
    let mut header: Vec<u8> = Vec::new();
    put_magic(&mut header);
    assert(header@ =~= magic());
    header.push(CONTAINER_VERSION);
    assert(header@ =~= magic() + seq![CONTAINER_VERSION]);
    put_le(&mut header, CODEC_ZSTD as u64, 2);
    put_le(&mut header, page_size as u64, 4);
    put_le(&mut header, page_count, 8);
    put_le(&mut header, frame_pages as u64, 4);
    put_le(&mut header, frame_count, 8);
    let crc: u32 = crc32c(header.as_slice());
    put_le(&mut header, crc as u64, 4);
    header
}

fn write_directory(directory: &Vec<FrameEntry>) -> (out: Vec<u8>)
    ensures
        out@ == directory_bytes(directory@) + bytes::le_bytes(
            checksum::crc32c_of(directory_bytes(directory@)) as nat,
            4,
        ),
{
    let ghost all = directory@;
    let mut out: Vec<u8> = Vec::new();
    let mut i: usize = 0;
    assert(all.subrange(0, 0) =~= Seq::empty());
    while i < directory.len()
        invariant
            i <= directory@.len(),
            all == directory@,
            out@ == directory_bytes(all.subrange(0, i as int)),
        decreases directory@.len() - i,
    {
        proof {
            let next = all.subrange(0, i + 1);
            assert(next.drop_last() =~= all.subrange(0, i as int));
        }
        let ghost before = out@;
        put_le(&mut out, directory[i].offset, 8);
        put_le(&mut out, directory[i].compressed_len as u64, 4);
        put_le(&mut out, directory[i].crc32c as u64, 4);
        assert(out@ =~= before + entry_bytes(all[i as int]));
        i += 1;
    }
    assert(all.subrange(0, all.len() as int) =~= all);
    let crc: u32 = crc32c(out.as_slice());
    put_le(&mut out, crc as u64, 4);
    out
}

/// The length of frames grows with them.
proof fn lemma_frames_len(frames: Seq<Seq<u8>>, n: int)
    requires
        0 <= n <= frames.len(),
    ensures
        frames_bytes(frames.subrange(0, n)).len() <= frames_bytes(frames).len(),
    decreases frames.len() - n,
{
    if n < frames.len() {
        lemma_frames_len(frames, n + 1);
        let next = frames.subrange(0, n + 1);
        assert(next.drop_last() =~= frames.subrange(0, n));
    } else {
        assert(frames.subrange(0, n) =~= frames);
    }
}

/// Puts compressed frames into a container.
pub fn assemble(page_size: u32, page_count: u64, frame_pages: u32, frames: &Vec<Vec<u8>>) -> (
result: DevonResult<Vec<u8>>)
    ensures
        match result {
            Ok(data) => frames_fit(lists(frames@)) && data@ == container(
                page_size,
                page_count,
                frame_pages,
                lists(frames@),
            ),
            Err(error) => !frames_fit(lists(frames@)) && error.kind_of()
                == ErrorKind::InvalidArgument,
        },
{
    let ghost all = lists(frames@);
    let count: u64 = frames.len() as u64;
    let mut offset: u64 = match count.checked_mul(DIRECTORY_ENTRY_LEN as u64) {
        Some(entries) => match entries.checked_add(
            HEADER_LEN as u64 + DIRECTORY_CRC_LEN as u64,
        ) {
            Some(offset) => offset,
            None => {
                return Err(invalid_argument("pack directory exceeds u64::MAX bytes"));
            },
        },
        None => {
            return Err(invalid_argument("pack directory exceeds u64::MAX bytes"));
        },
    };
    let mut directory: Vec<FrameEntry> = Vec::new();
    let mut i: usize = 0;
    assert(all.subrange(0, 0) =~= Seq::empty());
    while i < frames.len()
        invariant
            i <= frames@.len(),
            all == lists(frames@),
            directory@.len() == i,
            offset == first_frame(all.len()) + frames_bytes(all.subrange(0, i as int)).len(),
            forall|k: int| 0 <= k < i ==> (#[trigger] all[k]).len() <= u32::MAX,
            forall|k: int| 0 <= k < i ==> #[trigger] directory@[k] == entry_of(all, k),
        decreases frames@.len() - i,
    {
        proof {
            let next = all.subrange(0, i + 1);
            assert(next.drop_last() =~= all.subrange(0, i as int));
            assert(all[i as int] == frames@[i as int]@);
            lemma_frames_len(all, i + 1);
        }
        let len: usize = frames[i].len();
        if len as u64 > u32::MAX as u64 {
            return Err(invalid_argument("pack frame exceeds u32::MAX bytes"));
        }
        let crc: u32 = crc32c(frames[i].as_slice());
        directory.push(FrameEntry { offset, compressed_len: len as u32, crc32c: crc });
        offset = match offset.checked_add(len as u64) {
            Some(end) => end,
            None => {
                return Err(invalid_argument("pack frames exceed u64::MAX bytes"));
            },
        };
        i += 1;
    }
    assert(all.subrange(0, all.len() as int) =~= all);
    assert(directory@ =~= entries_of(all));
    let mut out: Vec<u8> = write_header(page_size, page_count, frame_pages, count);
    let listed: Vec<u8> = write_directory(&directory);
    put_bytes(&mut out, listed.as_slice());
    let ghost head = out@;
    let mut k: usize = 0;
    assert(out@ =~= head + frames_bytes(all.subrange(0, 0)));
    while k < frames.len()
        invariant
            k <= frames@.len(),
            all == lists(frames@),
            out@ == head + frames_bytes(all.subrange(0, k as int)),
        decreases frames@.len() - k,
    {
        proof {
            let next = all.subrange(0, k + 1);
            assert(next.drop_last() =~= all.subrange(0, k as int));
            assert(next.last() == frames@[k as int]@);
        }
        put_bytes(&mut out, frames[k].as_slice());
        assert(out@ =~= head + frames_bytes(all.subrange(0, k + 1)));
        k += 1;
    }
    assert(out@ =~= container(page_size, page_count, frame_pages, all));
    Ok(out)
}

/// Packs all pages of a database file, so many pages to a frame.
pub fn pack_pages(image: &Vec<u8>, page_size: u32, frame_pages: u32) -> (result: DevonResult<
    Vec<u8>,
>)
    requires
        superblock::is_page_size(page_size),
        compressible(image@.len()) || compressible(frame_pages as nat * page_size as nat),
    ensures
        ({
            let page_count = image@.len() / page_size as nat;
            let frame_len = frame_pages as nat * page_size as nat;
            let total = frame_total(page_count, frame_pages as nat);
            let frames = compressed_frames(image@, frame_len, total);
            if frame_pages == 0 {
                result matches Err(error) && error.kind_of() == ErrorKind::InvalidArgument
            } else if image@.len() % page_size as nat != 0 {
                result matches Err(error) && error.kind_of() == ErrorKind::Corrupt
            } else if !all_compress(image@, frame_len, total) {
                result matches Err(error) && error.kind_of() == ErrorKind::Io
            } else if !frames_fit(frames) {
                result matches Err(error) && error.kind_of() == ErrorKind::InvalidArgument
            } else {
                result matches Ok(data) && data@ == container(
                    page_size,
                    page_count as u64,
                    frame_pages,
                    frames,
                ) && frames_hold(frames, image@, frame_len)
            }
        }),
{
    if frame_pages == 0 {
        return Err(invalid_argument("frame_pages must be at least 1"));
    }
    let len: u64 = image.len() as u64;
    if len % page_size as u64 != 0 {
        let head: String = with_number("source length ", len, " is not page-aligned to page_size ");
        return Err(corrupt(with_number(head.as_str(), page_size as u64, "").as_str()));
    }
    let page_count: u64 = len / page_size as u64;
    assert(frame_pages as u64 * page_size as u64 <= u32::MAX as u64 * 65536) by (nonlinear_arith)
        requires
            frame_pages <= u32::MAX,
            page_size <= 65536,
    ;
    let frame_len: u64 = frame_pages as u64 * page_size as u64;
    assert(frame_len >= page_size >= 1) by (nonlinear_arith)
        requires
            frame_len == frame_pages * page_size,
            frame_pages >= 1,
            page_size >= 1,
    ;
    let mut frames: Vec<Vec<u8>> = Vec::new();
    let mut from: usize = 0;
    assert(0 * frame_len == 0) by (nonlinear_arith);
    assert(len == page_count * page_size) by (nonlinear_arith)
        requires
            len % page_size as u64 == 0,
            page_count == len / page_size as u64,
            page_size > 0,
    ;
    assert(lists(frames@) =~= compressed_frames(image@, frame_len as nat, 0));
    while from < image.len()
        invariant
            from <= image@.len(),
            len == image@.len(),
            frame_pages != 0,
            image@.len() % page_size as nat == 0,
            frame_len == frame_pages * page_size,
            frame_len >= 1,
            from == frames@.len() * frame_len || (from == image@.len() && (frames@.len() - 1)
                * frame_len < from <= frames@.len() * frame_len),
            frames_hold(lists(frames@), image@, frame_len as nat),
            compressible(image@.len()) || compressible(frame_len as nat),
            page_size > 0,
            len == page_count * page_size,
            page_count == image@.len() / page_size as nat,
            all_compress(image@, frame_len as nat, frames@.len()),
            lists(frames@) == compressed_frames(image@, frame_len as nat, frames@.len()),
        decreases image@.len() - from,
    {
        let ghost before = frames@;
        assert(from == before.len() * frame_len);
        let left: u64 = len - from as u64;
        let to: usize = if frame_len <= left {
            from + frame_len as usize
        } else {
            image.len()
        };
        let frame: Vec<u8> = cut(image, from, to);
        assert(frame@ =~= frame_of(image@, frame_len as nat, before.len() as int));
        assert(compressible(frame@.len())) by {
            if compressible(image@.len()) {
                vstd::arithmetic::div_mod::lemma_div_is_ordered(
                    frame@.len() as int,
                    image@.len() as int,
                    256,
                );
            } else {
                vstd::arithmetic::div_mod::lemma_div_is_ordered(
                    frame@.len() as int,
                    frame_len as int,
                    256,
                );
            }
        }
        match compress(frame.as_slice()) {
            Ok(data) => {
                frames.push(data);
            },
            Err(fault) => {
                proof {
                    lemma_another(
                        image@.len(),
                        page_size as nat,
                        page_count as nat,
                        frame_pages as nat,
                        frame_len as nat,
                        before.len(),
                    );
                    assert(zstd_of(frame_of(image@, frame_len as nat, before.len() as int)) is None);
                }
                return Err(io_error(fault.as_str()));
            },
        }
        proof {
            let all = lists(frames@);
            assert forall|i: int| 0 <= i < all.len() implies #[trigger] all[i]
                == compressed_frames(image@, frame_len as nat, frames@.len())[i] by {
                if i < before.len() {
                    assert(all[i] == lists(before)[i]);
                }
            }
            assert(all =~= compressed_frames(image@, frame_len as nat, frames@.len()));
            assert forall|i: int| 0 <= i < all.len() implies unzstd(#[trigger] all[i]) == Some(
                frame_of(image@, frame_len as nat, i),
            ) by {
                if i < before.len() {
                    assert(all[i] == lists(before)[i]);
                }
            }
            assert((before.len() + 1) * frame_len == before.len() * frame_len + frame_len)
                by (nonlinear_arith);
        }
        from = to;
    }
    proof {
        lemma_count(
            image@.len(),
            page_size as nat,
            page_count as nat,
            frame_pages as nat,
            frame_len as nat,
            frames@.len(),
        );
    }
    assemble(page_size, page_count, frame_pages, &frames)
}

/// Where bytes are left behind so many frames, there are more frames.
proof fn lemma_another(
    len: nat,
    page_size: nat,
    page_count: nat,
    frame_pages: nat,
    frame_len: nat,
    frames: nat,
)
    requires
        page_size > 0,
        frame_pages > 0,
        len == page_count * page_size,
        frame_len == frame_pages * page_size,
        frames * frame_len < len,
    ensures
        frames < frame_total(page_count, frame_pages),
{
    assert(frames * frame_pages < page_count) by (nonlinear_arith)
        requires
            page_size > 0,
            frames * frame_len < len,
            len == page_count * page_size,
            frame_len == frame_pages * page_size,
    ;
    let total = (page_count + frame_pages - 1) / frame_pages as int;
    assert(frames < total) by (nonlinear_arith)
        requires
            total == (page_count + frame_pages - 1) / frame_pages as int,
            frame_pages > 0,
            frames * frame_pages <= page_count - 1,
    ;
}

/// The frames that cover an image are as many as its pages take.
proof fn lemma_count(
    len: nat,
    page_size: nat,
    page_count: nat,
    frame_pages: nat,
    frame_len: nat,
    frames: nat,
)
    requires
        page_size > 0,
        frame_pages > 0,
        len == page_count * page_size,
        frame_len == frame_pages * page_size,
        len == frames * frame_len || (frames - 1) * frame_len < len <= frames * frame_len,
    ensures
        frames == frame_total(page_count, frame_pages),
{
    assert(page_count <= frames * frame_pages) by (nonlinear_arith)
        requires
            page_size > 0,
            page_count * page_size <= frames * frame_len,
            frame_len == frame_pages * page_size,
    ;
    assert((frames - 1) * frame_pages < page_count || (frames == 0 && page_count == 0))
        by (nonlinear_arith)
        requires
            page_size > 0,
            frame_pages > 0,
            len == page_count * page_size,
            frame_len == frame_pages * page_size,
            len == frames * frame_len || (frames - 1) * frame_len < len,
    ;
    assert((frames - 1) * frame_pages == frames * frame_pages - frame_pages) by (nonlinear_arith);
    let total = (page_count + frame_pages - 1) / frame_pages as int;
    assert(total == frames) by (nonlinear_arith)
        requires
            total == (page_count + frame_pages - 1) / frame_pages as int,
            frame_pages > 0,
            page_count <= frames * frame_pages,
            frames * frame_pages <= page_count + frame_pages - 1,
    ;
}

/// An open container.
#[derive(Debug)]
pub struct PackFile {
    data: Vec<u8>,
    page_size: u32,
    page_count: u64,
    frame_pages: u32,
    directory: Vec<FrameEntry>,
}

impl View for PackFile {
    type V = PackView;

    closed spec fn view(&self) -> PackView {
        PackView {
            page_size: self.page_size,
            page_count: self.page_count,
            frame_pages: self.frame_pages,
            entries: self.directory@,
        }
    }
}

pub(crate) fn has_magic(data: &Vec<u8>) -> (has: bool)
    requires
        data@.len() >= 9,
    ensures
        has == (data@.subrange(0, 9) == magic()),
{
    let has: bool = data[0] == 0x44 && data[1] == 0x45 && data[2] == 0x56 && data[3] == 0x4f
        && data[4] == 0x4e && data[5] == 0x50 && data[6] == 0x41 && data[7] == 0x43 && data[8]
        == 0x4b;
    proof {
        let head = data@.subrange(0, 9);
        if has {
            assert(head =~= magic());
        } else if head == magic() {
            assert(head[0] == magic()[0] && head[1] == magic()[1] && head[2] == magic()[2]
                && head[3] == magic()[3] && head[4] == magic()[4] && head[5] == magic()[5]
                && head[6] == magic()[6] && head[7] == magic()[7] && head[8] == magic()[8]);
        }
    }
    has
}

pub(crate) fn check_header(data: &Vec<u8>) -> (result: DevonResult<()>)
    ensures
        match result {
            Ok(()) => header_holds(data@),
            Err(error) => !header_holds(data@) && error.kind_of() == ErrorKind::Corrupt,
        },
{
    if data.len() < HEADER_LEN {
        let head: String = with_number(
            "pack header truncated: file has ",
            data.len() as u64,
            " bytes, the header requires ",
        );
        return Err(corrupt(with_number(head.as_str(), HEADER_LEN as u64, "").as_str()));
    }
    if !has_magic(data) {
        return Err(corrupt("bad pack magic: the header does not start with DEVONPACK"));
    }
    if data[9] != CONTAINER_VERSION {
        let head: String = with_number(
            "unsupported pack container version ",
            data[9] as u64,
            ": this build reads version ",
        );
        return Err(corrupt(with_number(head.as_str(), CONTAINER_VERSION as u64, "").as_str()));
    }
    let codec: u64 = get_le(data.as_slice(), 10, 2);
    if codec != CODEC_ZSTD as u64 {
        let head: String = with_number(
            "unsupported pack codec ",
            codec,
            ": this build reads codec ",
        );
        return Err(corrupt(with_number(head.as_str(), CODEC_ZSTD as u64, " (zstd)").as_str()));
    }
    let stored: u64 = get_le(data.as_slice(), 36, 4);
    let computed: u32 = crc32c(cut(data, 0, 36).as_slice());
    if stored != computed as u64 {
        return Err(mismatch("pack header crc32c mismatch: stored ", stored, computed));
    }
    proof {
        bytes::lemma_radix_values();
    }
    let page_size: u64 = get_le(data.as_slice(), 12, 4);
    if !valid_page_size(page_size as u32) {
        return Err(
            corrupt(
                with_number(
                    "pack header page_size ",
                    page_size,
                    " is not a power of two between 4096 and 65536",
                ).as_str(),
            ),
        );
    }
    Ok(())
}

fn mismatch(what: &str, stored: u64, computed: u32) -> (error: crate::error::DevonError)
    ensures
        error.kind_of() == ErrorKind::Corrupt,
{
    corrupt(
        and_name(
            with_name(what, checksum_text(stored as u32).as_str(), ", computed "),
            checksum_text(computed).as_str(),
            "",
        ).as_str(),
    )
}

fn read_directory(data: &Vec<u8>, count: u64) -> (result: DevonResult<Vec<FrameEntry>>)
    ensures
        match result {
            Ok(entries) => directory_holds(data@, count as nat) && entries@ == Seq::new(
                count as nat,
                |i: int| entry_at(data@, i),
            ),
            Err(error) => !directory_holds(data@, count as nat) && error.kind_of()
                == ErrorKind::Corrupt,
        },
{
    let len: u64 = data.len() as u64;
    if len < HEADER_LEN as u64 + DIRECTORY_CRC_LEN as u64 || count > (len - HEADER_LEN as u64
        - DIRECTORY_CRC_LEN as u64) / DIRECTORY_ENTRY_LEN as u64 {
        return Err(
            corrupt(
                and_number(
                    and_number(
                        with_number(
                            "pack directory truncated: ",
                            count.wrapping_mul(DIRECTORY_ENTRY_LEN as u64),
                            " bytes plus crc at offset ",
                        ),
                        HEADER_LEN as u64,
                        ", file has ",
                    ),
                    len,
                    "",
                ).as_str(),
            ),
        );
    }
    let total: usize = data.len();
    assert(HEADER_LEN + count * 16 + DIRECTORY_CRC_LEN <= total) by {
        let room = (len - HEADER_LEN as u64 - DIRECTORY_CRC_LEN as u64) as u64;
        vstd::arithmetic::div_mod::lemma_fundamental_div_mod(room as int, 16);
        assert(count <= room / 16);
    }
    let end: usize = HEADER_LEN + count as usize * DIRECTORY_ENTRY_LEN;
    let stored: u64 = get_le(data.as_slice(), end, 4);
    let computed: u32 = crc32c(cut(data, HEADER_LEN, end).as_slice());
    if stored != computed as u64 {
        return Err(mismatch("pack directory crc32c mismatch: stored ", stored, computed));
    }
    let mut entries: Vec<FrameEntry> = Vec::new();
    let mut i: usize = 0;
    proof {
        bytes::lemma_radix_values();
    }
    while i < count as usize
        invariant
            i <= count,
            count <= usize::MAX,
            total == data@.len(),
            HEADER_LEN + count * DIRECTORY_ENTRY_LEN + DIRECTORY_CRC_LEN <= data@.len(),
            bytes::radix_pow(4) == 0x1_0000_0000,
            entries@.len() == i,
            forall|k: int| 0 <= k < i ==> #[trigger] entries@[k] == entry_at(data@, k),
        decreases count - i,
    {
        let base: usize = HEADER_LEN + i * DIRECTORY_ENTRY_LEN;
        let offset: u64 = get_le(data.as_slice(), base, 8);
        let compressed_len: u64 = get_le(data.as_slice(), base + 8, 4);
        let crc: u64 = get_le(data.as_slice(), base + 12, 4);
        entries.push(
            FrameEntry { offset, compressed_len: compressed_len as u32, crc32c: crc as u32 },
        );
        i += 1;
    }
    assert(entries@ =~= Seq::new(count as nat, |i: int| entry_at(data@, i)));
    Ok(entries)
}

pub(crate) fn check_frame_count(page_count: u64, frame_pages: u32, frame_count: u64) -> (result: DevonResult<
    (),
>)
    ensures
        match result {
            Ok(()) => frame_pages != 0 && frame_total(page_count as nat, frame_pages as nat)
                == frame_count,
            Err(error) => (frame_pages == 0 || frame_total(page_count as nat, frame_pages as nat)
                != frame_count) && error.kind_of() == ErrorKind::Corrupt,
        },
{
    if frame_pages == 0 {
        return Err(corrupt("pack header frame_pages is zero"));
    }
    let expected: u128 = (page_count as u128 + frame_pages as u128 - 1) / frame_pages as u128;
    if expected != frame_count as u128 {
        let head: String = with_number("pack page_count mismatch: ", page_count, " pages at ");
        let middle: String = with_number(
            head.as_str(),
            frame_pages as u64,
            " pages per frame require ",
        );
        let more: String = and_number(
            middle,
            expected as u64,
            " frames, the header declares ",
        );
        return Err(corrupt(and_number(more, frame_count, "").as_str()));
    }
    Ok(())
}

/// Whether `i` is the first frame of a container whose bytes are not all in the file, the header
/// and the directory being in order.
pub open spec fn first_cut_off(data: Seq<u8>, i: int) -> bool {
    let count = bytes::le_at(data, 28, 8);
    &&& header_holds(data)
    &&& directory_holds(data, count)
    &&& bytes::le_at(data, 24, 4) != 0
    &&& frame_total(bytes::le_at(data, 16, 8), bytes::le_at(data, 24, 4)) == count
    &&& 0 <= i < count
    &&& !entry_inside(data, count, entry_at(data, i))
    &&& forall|j: int| 0 <= j < i ==> entry_inside(data, count, #[trigger] entry_at(data, j))
}

/// What is said of a frame whose bytes are not all in the file.
pub open spec fn cut_off_text(i: nat, entry: FrameEntry, len: nat) -> Seq<char> {
    "pack frame "@ + text::decimal(i) + " truncated: directory names "@ + text::decimal(
        entry.compressed_len as nat,
    ) + " bytes at offset "@ + text::decimal(entry.offset as nat) + ", file has "@ + text::decimal(
        len,
    )
}

fn check_frame_bounds(directory: &Vec<FrameEntry>, len: usize, Ghost(data): Ghost<Seq<u8>>) -> (
result: DevonResult<()>)
    requires
        data.len() == len,
        first_frame(directory@.len()) <= len,
    ensures
        match result {
            Ok(()) => forall|i: int|
                0 <= i < directory@.len() ==> entry_inside(
                    data,
                    directory@.len(),
                    #[trigger] directory@[i],
                ),
            Err(error) => error.kind_of() == ErrorKind::Corrupt && exists|i: int|
                0 <= i < directory@.len() && !entry_inside(
                    data,
                    directory@.len(),
                    #[trigger] directory@[i],
                ) && (forall|j: int|
                    0 <= j < i ==> entry_inside(data, directory@.len(), #[trigger] directory@[j]))
                    && error.text_of() == cut_off_text(i as nat, directory@[i], len as nat),
        },
{
    let first: u64 = HEADER_LEN as u64 + directory.len() as u64 * DIRECTORY_ENTRY_LEN as u64
        + DIRECTORY_CRC_LEN as u64;
    let mut i: usize = 0;
    while i < directory.len()
        invariant
            i <= directory@.len(),
            data.len() == len,
            first == first_frame(directory@.len()),
            forall|k: int|
                0 <= k < i ==> entry_inside(data, directory@.len(), #[trigger] directory@[k]),
        decreases directory@.len() - i,
    {
        let entry: FrameEntry = directory[i];
        let inside: bool = entry.offset >= first && match entry.offset.checked_add(
            entry.compressed_len as u64,
        ) {
            Some(end) => end <= len as u64,
            None => false,
        };
        if !inside {
            assert(!entry_inside(data, directory@.len(), directory@[i as int]));
            let head: String = with_number(
                "pack frame ",
                i as u64,
                " truncated: directory names ",
            );
            let middle: String = with_number(
                head.as_str(),
                entry.compressed_len as u64,
                " bytes at offset ",
            );
            let tail: String = with_number(middle.as_str(), entry.offset, ", file has ");
            let text: String = with_number(tail.as_str(), len as u64, "");
            proof {
                reveal_strlit("");
                assert(text@ =~= cut_off_text(i as nat, entry, len as nat));
            }
            return Err(corrupt(text.as_str()));
        }
        i += 1;
    }
    Ok(())
}

/// Checks a container: its header, its directory and the bounds of every
/// frame must hold. The size of its pages, how many it has, how many make a
/// frame, and the frames.
pub(crate) fn check_container(data: &Vec<u8>) -> (result: DevonResult<
    (u32, u64, u32, Vec<FrameEntry>),
>)
    ensures
        match result {
            Ok((page_size, page_count, frame_pages, directory)) => pack_of(data@) == Some(
                PackView { page_size, page_count, frame_pages, entries: directory@ },
            ),
            Err(error) => {
                &&& pack_of(data@) is None
                &&& error.kind_of() == ErrorKind::Corrupt
                &&& forall|i: int| #[trigger]
                    first_cut_off(data@, i) ==> error.text_of() == cut_off_text(
                        i as nat,
                        entry_at(data@, i),
                        data@.len(),
                    )
            },
        },
{
    match check_header(data) {
        Ok(()) => {},
        Err(error) => {
            return Err(error);
        },
    }
    proof {
        bytes::lemma_radix_values();
    }
    let page_size: u32 = get_le(data.as_slice(), 12, 4) as u32;
    let page_count: u64 = get_le(data.as_slice(), 16, 8);
    let frame_pages: u32 = get_le(data.as_slice(), 24, 4) as u32;
    let frame_count: u64 = get_le(data.as_slice(), 28, 8);
    let directory: Vec<FrameEntry> = match read_directory(data, frame_count) {
        Ok(directory) => directory,
        Err(error) => {
            return Err(error);
        },
    };
    match check_frame_count(page_count, frame_pages, frame_count) {
        Ok(()) => {},
        Err(error) => {
            return Err(error);
        },
    }
    match check_frame_bounds(&directory, data.len(), Ghost(data@)) {
        Ok(()) => {
            assert forall|i: int| 0 <= i < frame_count implies entry_inside(
                data@,
                frame_count as nat,
                #[trigger] entry_at(data@, i),
            ) by {
                assert(directory@[i] == entry_at(data@, i));
            }
        },
        Err(error) => {
            proof {
                let i = choose|i: int|
                    0 <= i < directory@.len() && !entry_inside(
                        data@,
                        directory@.len(),
                        #[trigger] directory@[i],
                    ) && (forall|j: int|
                        0 <= j < i ==> entry_inside(
                            data@,
                            directory@.len(),
                            #[trigger] directory@[j],
                        )) && error.text_of() == cut_off_text(
                        i as nat,
                        directory@[i],
                        data@.len(),
                    );
                assert(directory@[i] == entry_at(data@, i));
                assert forall|k: int| #[trigger] first_cut_off(data@, k) implies k == i by {
                    assert(directory@[k] == entry_at(data@, k));
                    if k < i {
                        assert(entry_inside(data@, directory@.len(), directory@[k]));
                    }
                }
            }
            return Err(error);
        },
    }
    assert(directory@ =~= pack_of(data@)->Some_0.entries);
    Ok((page_size, page_count, frame_pages, directory))
}

impl PackFile {
    /// What was read is what the bytes say.
    pub closed spec fn wf(self) -> bool {
        pack_of(self.data@) == Some(self@)
    }

    /// The bytes of the container.
    pub closed spec fn data_of(self) -> Seq<u8> {
        self.data@
    }

    /// Opens a container: its header, its directory and the bounds of every
    /// frame must hold.
    pub fn open(data: Vec<u8>) -> (result: DevonResult<PackFile>)
        ensures
            match result {
                Ok(pack) => pack.wf() && pack.data_of() == data@ && pack_of(data@) == Some(pack@),
                Err(error) => {
                    &&& pack_of(data@) is None
                    &&& error.kind_of() == ErrorKind::Corrupt
                    &&& forall|i: int| #[trigger]
                        first_cut_off(data@, i) ==> error.text_of() == cut_off_text(
                            i as nat,
                            entry_at(data@, i),
                            data@.len(),
                        )
                },
            },
    {
        let (page_size, page_count, frame_pages, directory): (u32, u64, u32, Vec<FrameEntry>) =
            match check_container(&data) {
            Ok(found) => found,
            Err(error) => {
                return Err(error);
            },
        };
        let pack = PackFile { data, page_size, page_count, frame_pages, directory };
        assert(pack@ =~= pack_of(pack.data@)->Some_0);
        Ok(pack)
    }

    /// The size of a page.
    pub fn page_size(&self) -> (size: u32)
        ensures
            size == self@.page_size,
    {
        self.page_size
    }

    /// How many pages there are.
    pub fn page_count(&self) -> (count: u64)
        ensures
            count == self@.page_count,
    {
        self.page_count
    }

    /// How many pages a frame has.
    pub fn frame_pages(&self) -> (pages: u32)
        ensures
            pages == self@.frame_pages,
    {
        self.frame_pages
    }

    /// How many frames there are.
    pub fn frame_count(&self) -> (count: usize)
        ensures
            count == self@.entries.len(),
    {
        self.directory.len()
    }

    /// The bytes of a full frame's pages.
    pub fn frame_bytes(&self) -> (bytes: u64)
        requires
            self.wf(),
        ensures
            bytes == self@.frame_len(),
    {
        proof {
            self.lemma_size();
        }
        assert(self.frame_pages as u64 * self.page_size as u64 <= u32::MAX as u64 * 65536)
            by (nonlinear_arith)
            requires
                self.frame_pages <= u32::MAX,
                self.page_size <= 65536,
        ;
        self.frame_pages as u64 * self.page_size as u64
    }

    /// The bytes of all pages, where 64 bits hold them.
    pub fn byte_len(&self) -> (len: Option<u64>)
        requires
            self.wf(),
        ensures
            match len {
                Some(len) => len == self@.total_len(),
                None => self@.total_len() > u64::MAX,
            },
    {
        self.page_count.checked_mul(self.page_size as u64)
    }

    proof fn lemma_size(self)
        requires
            self.wf(),
        ensures
            superblock::is_page_size(self.page_size),
            self.frame_pages > 0,
            self.directory@.len() == frame_total(self.page_count as nat, self.frame_pages as nat),
            forall|i: int|
                0 <= i < self.directory@.len() ==> entry_inside(
                    self.data@,
                    self.directory@.len(),
                    #[trigger] self.directory@[i],
                ),
    {
        let data = self.data@;
        bytes::lemma_radix_values();
        bytes::lemma_le_value_bound(data.subrange(12, 16));
        bytes::lemma_le_value_bound(data.subrange(16, 24));
        bytes::lemma_le_value_bound(data.subrange(24, 28));
        bytes::lemma_le_value_bound(data.subrange(28, 36));
        assert forall|i: int| 0 <= i < self.directory@.len() implies entry_inside(
            data,
            self.directory@.len(),
            #[trigger] self.directory@[i],
        ) by {
            assert(self.directory@[i] == entry_at(data, i));
        }
    }

    /// The pages that a frame holds. Its checksum is looked at before it is
    /// decompressed.
    pub fn read_frame(&self, frame_index: u64) -> (result: DevonResult<Vec<u8>>)
        requires
            self.wf(),
        ensures
            match result {
                Ok(frame) => frame_index < self@.entries.len() && read_back(
                    self.data_of(),
                    self@,
                    frame_index as int,
                ) == Some(frame@),
                Err(error) => (frame_index >= self@.entries.len() || read_back(
                    self.data_of(),
                    self@,
                    frame_index as int,
                ) is None) && error.kind_of() == ErrorKind::Corrupt,
            },
    {
        proof {
            self.lemma_size();
        }
        if frame_index >= self.directory.len() as u64 {
            let head: String = with_number("pack frame ", frame_index, " is beyond the ");
            return Err(
                corrupt(
                    with_number(
                        head.as_str(),
                        self.directory.len() as u64,
                        "-frame directory",
                    ).as_str(),
                ),
            );
        }
        let entry: FrameEntry = self.directory[frame_index as usize];
        let total: usize = self.data.len();
        assert(entry_inside(self.data@, self.directory@.len(), entry) && total
            == self.data@.len());
        let from: usize = entry.offset as usize;
        let to: usize = from + entry.compressed_len as usize;
        let compressed: Vec<u8> = cut(&self.data, from, to);
        let computed: u32 = crc32c(compressed.as_slice());
        if computed != entry.crc32c {
            let head: String = with_number("pack frame ", frame_index, " crc32c mismatch: stored ");
            return Err(mismatch(head.as_str(), entry.crc32c as u64, computed));
        }
        let expected: u64 = self.expected_frame_bytes(frame_index);
        if expected > isize::MAX as u64 {
            return Err(
                corrupt(
                    with_number("pack frame ", frame_index, " exceeds memory").as_str(),
                ),
            );
        }
        match decompress(compressed.as_slice(), expected as usize) {
            Err(fault) => Err(
                corrupt(
                    and_name(
                        with_number("pack frame ", frame_index, " fails zstd decode: "),
                        fault.as_str(),
                        "",
                    ).as_str(),
                ),
            ),
            Ok(frame) => {
                if frame.len() as u64 != expected {
                    let head: String = with_number("pack frame ", frame_index, " decoded to ");
                    let middle: String = with_number(
                        head.as_str(),
                        frame.len() as u64,
                        " bytes, expected ",
                    );
                    return Err(corrupt(with_number(middle.as_str(), expected, "").as_str()));
                }
                Ok(frame)
            },
        }
    }

    fn expected_frame_bytes(&self, frame_index: u64) -> (bytes: u64)
        requires
            self.wf(),
            frame_index < self.directory@.len(),
        ensures
            bytes == self@.expected_len(frame_index as int),
    {
        proof {
            self.lemma_size();
            lemma_frame_inside(
                self.page_count as nat,
                self.frame_pages as nat,
                frame_index as int,
            );
        }
        let first_page: u64 = frame_index * self.frame_pages as u64;
        let left: u64 = self.page_count - first_page;
        let pages: u64 = if (self.frame_pages as u64) < left {
            self.frame_pages as u64
        } else {
            left
        };
        assert(pages * self.page_size as u64 <= u32::MAX as u64 * 65536) by (nonlinear_arith)
            requires
                pages <= u32::MAX,
                self.page_size <= 65536,
        ;
        proof {
            let view = self@;
            let i = frame_index as int;
            assert(view.total_len() - i * view.frame_len() == left * self.page_size)
                by (nonlinear_arith)
                requires
                    view.total_len() == self.page_count * self.page_size,
                    view.frame_len() == self.frame_pages * self.page_size,
                    left == self.page_count - i * self.frame_pages,
            ;
            if (self.frame_pages as u64) < left {
                assert(view.frame_len() <= left * self.page_size) by (nonlinear_arith)
                    requires
                        view.frame_len() == self.frame_pages * self.page_size,
                        self.frame_pages < left,
                ;
            } else {
                assert(left * self.page_size <= view.frame_len()) by (nonlinear_arith)
                    requires
                        view.frame_len() == self.frame_pages * self.page_size,
                        left <= self.frame_pages,
                ;
            }
        }
        pages * self.page_size as u64
    }
}

/// The directory has sixteen bytes for each entry, and they say it.
proof fn lemma_directory(entries: Seq<FrameEntry>, i: int)
    ensures
        directory_bytes(entries).len() == entries.len() * DIRECTORY_ENTRY_LEN,
        0 <= i < entries.len() ==> directory_bytes(entries).subrange(
            i * DIRECTORY_ENTRY_LEN,
            i * DIRECTORY_ENTRY_LEN + DIRECTORY_ENTRY_LEN,
        ) == entry_bytes(entries[i]),
    decreases entries.len(),
{
    if entries.len() > 0 {
        let before = entries.drop_last();
        let last = entries.last();
        lemma_directory(before, i);
        bytes::lemma_le_bytes_len(last.offset as nat, 8);
        bytes::lemma_le_bytes_len(last.compressed_len as nat, 4);
        bytes::lemma_le_bytes_len(last.crc32c as nat, 4);
        let all = directory_bytes(entries);
        if 0 <= i < before.len() {
            assert(all.subrange(
                i * DIRECTORY_ENTRY_LEN,
                i * DIRECTORY_ENTRY_LEN + DIRECTORY_ENTRY_LEN,
            ) =~= directory_bytes(before).subrange(
                i * DIRECTORY_ENTRY_LEN,
                i * DIRECTORY_ENTRY_LEN + DIRECTORY_ENTRY_LEN,
            ));
        } else if i == before.len() {
            assert(all.subrange(
                i * DIRECTORY_ENTRY_LEN,
                i * DIRECTORY_ENTRY_LEN + DIRECTORY_ENTRY_LEN,
            ) =~= entry_bytes(last));
        }
    }
}

/// A frame stands behind those before it.
proof fn lemma_frame_place(frames: Seq<Seq<u8>>, i: int)
    requires
        0 <= i < frames.len(),
    ensures
        ({
            let from = frames_bytes(frames.subrange(0, i)).len();
            &&& from + frames[i].len() <= frames_bytes(frames).len()
            &&& frames_bytes(frames).subrange(from as int, (from + frames[i].len()) as int)
                == frames[i]
        }),
    decreases frames.len(),
{
    let before = frames.drop_last();
    let from = frames_bytes(frames.subrange(0, i)).len();
    if i < before.len() {
        lemma_frame_place(before, i);
        assert(before.subrange(0, i) =~= frames.subrange(0, i));
        assert(frames_bytes(frames).subrange(from as int, (from + frames[i].len()) as int)
            =~= frames_bytes(before).subrange(from as int, (from + frames[i].len()) as int));
    } else {
        assert(frames.subrange(0, i) =~= before);
        assert(frames_bytes(frames).subrange(from as int, (from + frames[i].len()) as int)
            =~= frames[i]);
    }
}

/// The fields of a header are read back.
proof fn lemma_header(
    page_size: u32,
    page_count: u64,
    frame_pages: u32,
    frame_count: u64,
    rest: Seq<u8>,
)
    ensures
        ({
            let data = header_bytes(page_size, page_count, frame_pages, frame_count) + rest;
            &&& header_bytes(page_size, page_count, frame_pages, frame_count).len() == HEADER_LEN
            &&& data.subrange(0, 9) == magic()
            &&& data[9] == CONTAINER_VERSION
            &&& bytes::le_at(data, 10, 2) == CODEC_ZSTD
            &&& bytes::le_at(data, 12, 4) == page_size
            &&& bytes::le_at(data, 16, 8) == page_count
            &&& bytes::le_at(data, 24, 4) == frame_pages
            &&& bytes::le_at(data, 28, 8) == frame_count
            &&& bytes::le_at(data, 36, 4) == checksum::crc32c_of(data.subrange(0, 36))
        }),
{
    let checked = checked_header(page_size, page_count, frame_pages, frame_count);
    let crc = checksum::crc32c_of(checked);
    bytes::lemma_radix_values();
    bytes::lemma_le_round_trip(CODEC_ZSTD as nat, 2);
    bytes::lemma_le_round_trip(page_size as nat, 4);
    bytes::lemma_le_round_trip(page_count as nat, 8);
    bytes::lemma_le_round_trip(frame_pages as nat, 4);
    bytes::lemma_le_round_trip(frame_count as nat, 8);
    bytes::lemma_le_round_trip(crc as nat, 4);
    let data = header_bytes(page_size, page_count, frame_pages, frame_count) + rest;
    assert(data.subrange(0, 9) =~= magic());
    assert(data.subrange(10, 12) =~= bytes::le_bytes(CODEC_ZSTD as nat, 2));
    assert(data.subrange(12, 16) =~= bytes::le_bytes(page_size as nat, 4));
    assert(data.subrange(16, 24) =~= bytes::le_bytes(page_count as nat, 8));
    assert(data.subrange(24, 28) =~= bytes::le_bytes(frame_pages as nat, 4));
    assert(data.subrange(28, 36) =~= bytes::le_bytes(frame_count as nat, 8));
    assert(data.subrange(0, 36) =~= checked);
    assert(data.subrange(36, 40) =~= bytes::le_bytes(crc as nat, 4));
}

/// An entry is read back.
proof fn lemma_entry(
    page_size: u32,
    page_count: u64,
    frame_pages: u32,
    frames: Seq<Seq<u8>>,
    i: int,
)
    requires
        frames_fit(frames),
        0 <= i < frames.len(),
    ensures
        ({
            let data = container(page_size, page_count, frame_pages, frames);
            let entry = entry_of(frames, i);
            &&& entry_at(data, i) == entry
            &&& entry_inside(data, frames.len(), entry)
            &&& data.subrange(entry.offset as int, entry.offset + entry.compressed_len)
                == frames[i]
        }),
{
    let data = container(page_size, page_count, frame_pages, frames);
    let entries = entries_of(frames);
    let directory = directory_bytes(entries);
    let entry = entry_of(frames, i);
    let crc = checksum::crc32c_of(directory);
    let tail = bytes::le_bytes(crc as nat, 4) + frames_bytes(frames);
    lemma_header(page_size, page_count, frame_pages, frames.len() as u64, directory + tail);
    lemma_directory(entries, i);
    lemma_frame_place(frames, i);
    bytes::lemma_le_bytes_len(crc as nat, 4);
    bytes::lemma_radix_values();
    bytes::lemma_le_round_trip(entry.offset as nat, 8);
    bytes::lemma_le_round_trip(entry.compressed_len as nat, 4);
    bytes::lemma_le_round_trip(entry.crc32c as nat, 4);
    let base = HEADER_LEN + i * DIRECTORY_ENTRY_LEN;
    let spelled = directory.subrange(
        i * DIRECTORY_ENTRY_LEN,
        i * DIRECTORY_ENTRY_LEN + DIRECTORY_ENTRY_LEN,
    );
    assert(data.subrange(base, base + 16) =~= spelled);
    assert(data.subrange(base, base + 8) =~= spelled.subrange(0, 8));
    assert(spelled.subrange(0, 8) =~= bytes::le_bytes(entry.offset as nat, 8));
    assert(data.subrange(base + 8, base + 12) =~= spelled.subrange(8, 12));
    assert(spelled.subrange(8, 12) =~= bytes::le_bytes(entry.compressed_len as nat, 4));
    assert(data.subrange(base + 12, base + 16) =~= spelled.subrange(12, 16));
    assert(spelled.subrange(12, 16) =~= bytes::le_bytes(entry.crc32c as nat, 4));
    let from = frames_bytes(frames.subrange(0, i)).len();
    assert(frames[i].len() <= u32::MAX);
    assert(data.subrange(entry.offset as int, entry.offset + entry.compressed_len)
        =~= frames_bytes(frames).subrange(from as int, (from + frames[i].len()) as int));
}

/// A container opens with what it was written with.
proof fn lemma_opens(page_size: u32, page_count: u64, frame_pages: u32, frames: Seq<Seq<u8>>)
    requires
        superblock::is_page_size(page_size),
        frame_pages != 0,
        frames_fit(frames),
        frames.len() == frame_total(page_count as nat, frame_pages as nat),
    ensures
        pack_of(container(page_size, page_count, frame_pages, frames)) == Some(
            (PackView { page_size, page_count, frame_pages, entries: entries_of(frames) }),
        ),
{
    let count = frames.len();
    let data = container(page_size, page_count, frame_pages, frames);
    let entries = entries_of(frames);
    let directory = directory_bytes(entries);
    let crc = checksum::crc32c_of(directory);
    let tail = bytes::le_bytes(crc as nat, 4) + frames_bytes(frames);
    lemma_header(page_size, page_count, frame_pages, count as u64, directory + tail);
    assert(data =~= header_bytes(page_size, page_count, frame_pages, count as u64) + (directory
        + tail));
    lemma_directory(entries, 0);
    bytes::lemma_radix_values();
    bytes::lemma_le_round_trip(crc as nat, 4);
    let end = HEADER_LEN + count * DIRECTORY_ENTRY_LEN;
    assert(data.subrange(HEADER_LEN as int, end) =~= directory);
    assert(data.subrange(end, end + 4) =~= bytes::le_bytes(crc as nat, 4));
    assert(directory_holds(data, count));
    assert forall|i: int| 0 <= i < count implies entry_inside(
        data,
        count,
        #[trigger] entry_at(data, i),
    ) && entry_at(data, i) == entries[i] by {
        lemma_entry(page_size, page_count, frame_pages, frames, i);
    }
    assert(entries =~= Seq::new(count, |i: int| entry_at(data, i)));
}

/// What was packed is read back: the container of an image opens, with the
/// sizes it was written with, and each of its frames gives the pages that
/// went into it.
pub proof fn law_packed_pages_read_back(
    image: Seq<u8>,
    page_size: u32,
    frame_pages: u32,
    frames: Seq<Seq<u8>>,
)
    requires
        superblock::is_page_size(page_size),
        frame_pages != 0,
        image.len() % page_size as nat == 0,
        image.len() / page_size as nat <= u64::MAX,
        frame_pages as nat * page_size as nat <= isize::MAX || image.len() <= isize::MAX,
        frames_fit(frames),
        frames.len() == frame_total(image.len() / page_size as nat, frame_pages as nat),
        frames_hold(frames, image, frame_pages as nat * page_size as nat),
    ensures
        ({
            let page_count = (image.len() / page_size as nat) as u64;
            let data = container(page_size, page_count, frame_pages, frames);
            &&& pack_of(data) == Some(
                (PackView { page_size, page_count, frame_pages, entries: entries_of(frames) }),
            )
            &&& forall|i: int|
                0 <= i < frames.len() ==> #[trigger] read_back(data, pack_of(data)->Some_0, i)
                    == Some(frame_of(image, frame_pages as nat * page_size as nat, i))
        }),
{
    let page_count = (image.len() / page_size as nat) as u64;
    let count = frames.len();
    let data = container(page_size, page_count, frame_pages, frames);
    let pack = PackView { page_size, page_count, frame_pages, entries: entries_of(frames) };
    lemma_opens(page_size, page_count, frame_pages, frames);
    let frame_len = frame_pages as nat * page_size as nat;
    assert(image.len() == page_count * page_size) by (nonlinear_arith)
        requires
            image.len() % page_size as nat == 0,
            page_count == image.len() / page_size as nat,
            page_size > 0,
    ;
    assert forall|i: int| 0 <= i < count implies #[trigger] read_back(data, pack, i) == Some(
        frame_of(image, frame_len, i),
    ) by {
        lemma_entry(page_size, page_count, frame_pages, frames, i);
        lemma_frame_inside(page_count as nat, frame_pages as nat, i);
        assert(unzstd(frames[i]) == Some(frame_of(image, frame_len, i)));
        assert(0 <= i * frame_len < image.len()) by (nonlinear_arith)
            requires
                0 <= i * frame_pages < page_count,
                frame_len == frame_pages * page_size,
                image.len() == page_count * page_size,
                page_size > 0,
        ;
    }
}

} // verus!
