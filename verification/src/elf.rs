//! Reading an executable image.
//!
//! The image is read by the `xmas_elf` crate. That reader reinterprets
//! the bytes in place, and for that asserts two things that it leaves to its
//! caller: that the bytes start at an address that is a multiple of eight,
//! and that the tables it is pointed to lie within the bytes. `read_image`
//! copies the image to such an address first, which can always be done
//! within eight bytes of room, and checks every position before it asks for
//! what lies there.

use vstd::prelude::*;

verus! {

/// What the file header of an image says: whether the image is of the
/// 64-bit class, the entry point, and where the program headers lie.
pub struct ElfHeader {
    pub wide: bool,
    pub entry: u64,
    pub ph_offset: u64,
    pub ph_entry_size: u16,
    pub ph_count: u16,
}

/// What a program header says of its segment: whether it is to be loaded,
/// where it goes in memory and how much room it takes there, where its bytes
/// lie in the image and how many they are, and what may be done with it.
#[derive(Copy, Clone, PartialEq, Eq, Debug)]
pub struct ElfSegment {
    pub loadable: bool,
    pub vaddr: u64,
    pub mem_size: u64,
    pub offset: u64,
    pub file_size: u64,
    pub readable: bool,
    pub writable: bool,
    pub executable: bool,
}

/// An image as far as loading it goes: the entry point, and the segments
/// that are to be loaded, in the order of their program headers.
pub struct ElfImage {
    pub entry: u64,
    pub segments: Vec<ElfSegment>,
}

/// The first four bytes of every image.
pub open spec fn elf_magic() -> Seq<u8> {
    seq![0x7fu8, 0x45u8, 0x4cu8, 0x46u8]
}

/// Whether `bytes` start with the four magic bytes of an image.
pub open spec fn starts_with_magic(bytes: Seq<u8>) -> bool {
    bytes.len() >= 4 && bytes.subrange(0, 4) == elf_magic()
}

/// Whether the file header of the image `bytes` lies within them, as far as
/// the reader goes for it: it takes 64 bytes of an image that names the
/// 64-bit class, at byte 4, and 52 bytes of any other image that it accepts.
pub open spec fn header_in_reach(bytes: Seq<u8>) -> bool {
    bytes.len() >= 64 || (bytes.len() >= 52 && bytes[4] != 2)
}

/// What `xmas_elf` reads as the file header of the image `bytes`, or nothing
/// where it refuses the image. The reader takes every number in the byte
/// order of the machine that it runs on, whatever the image says of its
/// own: the name stands for what is read on a machine that puts the low
/// byte first.
pub uninterp spec fn elf_header(bytes: Seq<u8>) -> Option<ElfHeader>;

/// What `xmas_elf` reads as program header `index` of the image `bytes`, or
/// nothing where it refuses the image, the header or its type; read, as
/// the file header is, on a machine that puts the low byte first.
pub uninterp spec fn elf_segment(bytes: Seq<u8>, index: u16) -> Option<ElfSegment>;

impl ElfHeader {
    /// The least size that the reader accepts for a program header of this
    /// class.
    pub open spec fn slot_size(&self) -> int {
        if self.wide {
            56
        } else {
            32
        }
    }

    /// The alignment that the reader asks of a program header of this class.
    pub open spec fn slot_align(&self) -> int {
        if self.wide {
            8
        } else {
            4
        }
    }

    /// Whether program header `index` can be read from an image of `len`
    /// bytes: there is a table of headers, the header lies within the image,
    /// is large enough, and starts at a multiple of its alignment.
    pub open spec fn has_slot(&self, index: int, len: int) -> bool {
        &&& 0 <= index < self.ph_count
        &&& self.ph_offset > 0
        &&& self.ph_entry_size >= self.slot_size()
        &&& self.ph_offset + (index + 1) * self.ph_entry_size <= len
        &&& (self.ph_offset + index * self.ph_entry_size) % self.slot_align() == 0
    }

    /// Whether program header `index` can be read from an image of `len`
    /// bytes.
    pub fn slot_ok(&self, index: u16, len: usize) -> (ok: bool)
        ensures
            ok == self.has_slot(index as int, len as int),
    {
        if index >= self.ph_count || self.ph_offset == 0 {
            return false;
        }
        let size: u64 = self.ph_entry_size as u64;
        let least: u64 = if self.wide {
            56
        } else {
            32
        };
        let align: u64 = if self.wide {
            8
        } else {
            4
        };
        if size < least {
            return false;
        }
        assert(index as u64 * size <= 0xffff * 0xffff) by (nonlinear_arith)
            requires
                index <= 0xffff,
                size <= 0xffff,
        ;
        assert((index + 1) * size == index * size + size) by (nonlinear_arith);
        let skip: u64 = index as u64 * size;
        let start: u64 = match self.ph_offset.checked_add(skip) {
            Some(start) => start,
            None => {
                return false;
            },
        };
        let end: u64 = match start.checked_add(size) {
            Some(end) => end,
            None => {
                return false;
            },
        };
        end <= len as u64 && start % align == 0
    }
}

/// Program header `i` of the image `bytes`, where it can be read.
pub open spec fn segment_at(bytes: Seq<u8>, header: ElfHeader, i: int) -> Option<ElfSegment> {
    if header.has_slot(i, bytes.len() as int) {
        elf_segment(bytes, i as u16)
    } else {
        None
    }
}

/// The segments to be loaded among the first `count` program headers of the
/// image `bytes`, in their order; nothing if one of those headers cannot be
/// read.
pub open spec fn segments_upto(bytes: Seq<u8>, header: ElfHeader, count: int) -> Option<Seq<ElfSegment>>
    decreases count,
{
    if count <= 0 {
        Some(Seq::empty())
    } else {
        match (segments_upto(bytes, header, count - 1), segment_at(bytes, header, count - 1)) {
            (Some(before), Some(segment)) => Some(
                if segment.loadable {
                    before.push(segment)
                } else {
                    before
                },
            ),
            _ => None,
        }
    }
}

/// The entry point and the segments to be loaded of the image `bytes`;
/// nothing if the image is shorter than its file header, does not start with
/// the magic bytes, or is refused by the reader.
pub open spec fn image_of(bytes: Seq<u8>) -> Option<(u64, Seq<ElfSegment>)> {
    if !header_in_reach(bytes) || bytes.subrange(0, 4) != elf_magic() {
        None
    } else {
        match elf_header(bytes) {
            Some(header) => match segments_upto(bytes, header, header.ph_count as int) {
                Some(segments) => Some((header.entry, segments)),
                None => None,
            },
            None => None,
        }
    }
}

/// Whether an image of `len` bytes can be copied to an address that is a
/// multiple of eight: the copy takes eight bytes of room more than the image,
/// and no buffer has more than `isize::MAX` bytes.
pub open spec fn can_copy(len: int) -> bool {
    len + 8 <= isize::MAX as int
}

/// How far it is from `address` to the next multiple of eight: the least
/// number that makes `address` one when added to it.
pub open spec fn gap_to_eight(address: int) -> int {
    (8 - address % 8) % 8
}

/// A copy of an image at an address that is a multiple of eight, where the
/// reader can take it. Only `copy_of` makes one: it asks at which address the
/// room of its buffer starts, and puts the bytes as far behind that start as
/// it is to the next multiple of eight. That an image of this type lies at
/// such an address is not proved; it rests on `copy_of` being the one place
/// where the type is made.
pub struct AlignedImage {
    buf: Vec<u8>,
    skip: usize,
}

impl View for AlignedImage {
    type V = Seq<u8>;

    closed spec fn view(&self) -> Seq<u8> {
        self.buf@.subrange(self.skip as int, self.buf@.len() as int)
    }
}

impl AlignedImage {
    /// The bytes start within the buffer.
    pub closed spec fn wf(&self) -> bool {
        self.skip <= self.buf@.len()
    }

    /// A copy of `data` at an address that is a multiple of eight. Nothing
    /// if `data` is too long to have eight bytes of room beside it.
    pub fn copy_of(data: &[u8]) -> (copy: Option<AlignedImage>)
        ensures
            copy.is_some() == can_copy(data@.len() as int),
            copy matches Some(image) ==> image.wf() && image@ == data@,
    {
        let len = data.len();
        if len > usize::MAX / 2 - 8 {
            return None;
        }
        let mut buf: Vec<u8> = Vec::with_capacity(len + 8);
        let skip = gap_of(start_address(&buf));
        let mut i: usize = 0;
        while i < skip
            invariant
                i <= skip,
                buf@.len() == i,
            decreases skip - i,
        {
            buf.push(0);
            i += 1;
        }
        let mut k: usize = 0;
        while k < len
            invariant
                k <= len,
                len == data@.len(),
                skip < 8,
                len + 8 <= usize::MAX,
                buf@.len() == skip + k,
                forall|j: int| 0 <= j < k ==> buf@[skip + j] == data@[j],
            decreases len - k,
        {
            buf.push(data[k]);
            k += 1;
        }
        let image = AlignedImage { buf, skip };
        assert(image@ =~= data@);
        Some(image)
    }

    /// How many bytes the image has.
    pub fn len(&self) -> (len: usize)
        requires
            self.wf(),
        ensures
            len == self@.len(),
    {
        self.buf.len() - self.skip
    }
}

/// How far it is from `address` to the next multiple of eight.
pub fn gap_of(address: usize) -> (gap: usize)
    ensures
        gap == gap_to_eight(address as int),
        gap < 8,
        (address + gap) % 8 == 0,
{
    (8 - address % 8) % 8
}

/// `Vec::as_ptr` of std, with the pointer taken as a number: the address at
/// which the room that `buf` has reserved starts. The allocator picks it, so
/// nothing is claimed of the number.
#[verifier::external_body]
fn start_address(buf: &Vec<u8>) -> (address: usize) {
    buf.as_ptr() as usize
}

/// `xmas_elf::ElfFile::new`, and of the header it gives the class and the
/// getters `entry_point`, `ph_offset`, `ph_entry_size` and `ph_count`. The
/// contract names what comes back: with the image at an address that is a
/// multiple of eight, which the reader asserts and the type of `image`
/// stands for, it depends on the bytes alone. For a file header that does
/// not lie within the bytes the reader would index beyond their end.
#[verifier::external_body]
fn read_header(image: &AlignedImage) -> (header: Option<ElfHeader>)
    requires
        image.wf(),
        header_in_reach(image@),
    ensures
        header == elf_header(image@),
{
    let elf = xmas_elf::ElfFile::new(&image.buf[image.skip..]).ok()?;
    let pt2 = elf.header.pt2;
    Some(
        ElfHeader {
            wide: matches!(pt2, xmas_elf::header::HeaderPt2::Header64(_)),
            entry: pt2.entry_point(),
            ph_offset: pt2.ph_offset(),
            ph_entry_size: pt2.ph_entry_size(),
            ph_count: pt2.ph_count(),
        },
    )
}

/// `xmas_elf::ElfFile::program_header`, and of the program header it gives
/// `get_type`, the getters `virtual_addr`, `mem_size`, `offset` and
/// `file_size`, and `is_read`, `is_write` and `is_execute` of its flags.
/// The contract names what comes back. The reader indexes the image at the
/// place the file header gives and asserts size and alignment there:
/// `requires` leaves out the images for which that place is not sound.
#[verifier::external_body]
fn read_segment(image: &AlignedImage, index: u16) -> (segment: Option<ElfSegment>)
    requires
        image.wf(),
        header_in_reach(image@),
        elf_header(image@) matches Some(header) && header.has_slot(index as int, image@.len() as int),
    ensures
        segment == elf_segment(image@, index),
{
    let elf = xmas_elf::ElfFile::new(&image.buf[image.skip..]).ok()?;
    let ph = elf.program_header(index).ok()?;
    let flags = ph.flags();
    Some(
        ElfSegment {
            loadable: matches!(ph.get_type().ok()?, xmas_elf::program::Type::Load),
            vaddr: ph.virtual_addr(),
            mem_size: ph.mem_size(),
            offset: ph.offset(),
            file_size: ph.file_size(),
            readable: flags.is_read(),
            writable: flags.is_write(),
            executable: flags.is_execute(),
        },
    )
}

/// Whether `data` starts with the four magic bytes of an image.
pub fn has_magic(data: &[u8]) -> (yes: bool)
    ensures
        yes == starts_with_magic(data@),
{
    if data.len() < 4 {
        return false;
    }
    let yes = data[0] == 0x7f && data[1] == 0x45 && data[2] == 0x4c && data[3] == 0x46;
    proof {
        if yes {
            assert(data@.subrange(0, 4) =~= elf_magic());
        } else {
            assert(data@.subrange(0, 4)[0] == data@[0]);
            assert(data@.subrange(0, 4)[1] == data@[1]);
            assert(data@.subrange(0, 4)[2] == data@[2]);
            assert(data@.subrange(0, 4)[3] == data@[3]);
        }
    }
    yes
}

/// Reads the image `data`: its entry point, and of its program headers the
/// segments that are to be loaded. An image that is shorter than its file
/// header, does not start with the magic bytes, is refused by the reader, or
/// names a program header that does not lie soundly within it, gives
/// nothing; nor does one that is too long to be copied. Every other image is
/// read.
pub fn read_image(data: &[u8]) -> (image: Option<ElfImage>)
    ensures
        image.is_some() == (can_copy(data@.len() as int) && image_of(data@).is_some()),
        image matches Some(img) ==> image_of(data@) == Some((img.entry, img.segments@)),
{
    if data.len() < 52 || (data.len() < 64 && data[4] == 2) || !has_magic(data) {
        return None;
    }
    let copy = match AlignedImage::copy_of(data) {
        Some(copy) => copy,
        None => {
            return None;
        },
    };
    let header = match read_header(&copy) {
        Some(header) => header,
        None => {
            return None;
        },
    };
    let mut segments: Vec<ElfSegment> = Vec::new();
    let mut i: u16 = 0;
    while i < header.ph_count
        invariant
            i <= header.ph_count,
            copy.wf(),
            copy@ == data@,
            header_in_reach(copy@),
            elf_header(copy@) == Some(header),
            segments_upto(data@, header, i as int) == Some(segments@),
        decreases header.ph_count - i,
    {
        if !header.slot_ok(i, copy.len()) {
            proof {
                lost_header(data@, header, i as int, header.ph_count as int);
            }
            return None;
        }
        let segment = match read_segment(&copy, i) {
            Some(segment) => segment,
            None => {
                proof {
                    lost_header(data@, header, i as int, header.ph_count as int);
                }
                return None;
            },
        };
        if segment.loadable {
            segments.push(segment);
        }
        i += 1;
    }
    Some(ElfImage { entry: header.entry, segments })
}

/// Once one program header cannot be read, no longer list of program
/// headers can be.
proof fn lost_header(bytes: Seq<u8>, header: ElfHeader, i: int, count: int)
    requires
        0 <= i < count,
        segment_at(bytes, header, i).is_none(),
    ensures
        segments_upto(bytes, header, count).is_none(),
    decreases count,
{
    if count - 1 > i {
        lost_header(bytes, header, i, count - 1);
    }
}

} // verus!
