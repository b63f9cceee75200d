//! Reads an executable image's ELF header and program headers into the
//! plain-value `ImageInfo` the loader works on.
//!
//! The format is read directly from the bytes, against spec functions that
//! state each field's offset and little-endian encoding, so the whole parse
//! carries an exact contract and accepts no input it cannot handle.

use vstd::prelude::*;
use crate::loader::{ImageInfo, SegmentInfo};

verus! {

/// The little-endian value of the two bytes at `off`.
pub open spec fn le16(data: Seq<u8>, off: int) -> int {
    data[off] + 0x100 * data[off + 1]
}

/// The little-endian value of the four bytes at `off`.
pub open spec fn le32(data: Seq<u8>, off: int) -> int {
    data[off] + 0x100 * data[off + 1] + 0x1_0000 * data[off + 2] + 0x100_0000 * data[off + 3]
}

/// The little-endian value of the eight bytes at `off`.
pub open spec fn le64(data: Seq<u8>, off: int) -> int {
    le32(data, off) + 0x1_0000_0000 * le32(data, off + 4)
}

fn read_u16(data: &[u8], off: usize) -> (r: u16)
    requires
        off + 2 <= data@.len(),
    ensures
        r == le16(data@, off as int),
{
    data[off] as u16 + data[off + 1] as u16 * 0x100
}

fn read_u32(data: &[u8], off: usize) -> (r: u32)
    requires
        off + 4 <= data@.len(),
    ensures
        r == le32(data@, off as int),
{
    data[off] as u32 + data[off + 1] as u32 * 0x100 + data[off + 2] as u32 * 0x1_0000
        + data[off + 3] as u32 * 0x100_0000
}

fn read_u64(data: &[u8], off: usize) -> (r: u64)
    requires
        off + 8 <= data@.len(),
        off + 8 <= usize::MAX,
    ensures
        r == le64(data@, off as int),
{
    read_u32(data, off) as u64 + read_u32(data, off + 4) as u64 * 0x1_0000_0000
}

/// Whether the bytes open with a well-formed ELF header of a supported
/// class: the magic number, class 1 (32-bit) or 2 (64-bit), and enough
/// bytes for the whole header (52 or 64).
pub open spec fn header_ok(data: Seq<u8>) -> bool {
    &&& data.len() >= 52
    &&& data[0] == 0x7f
    &&& data[1] == 0x45
    &&& data[2] == 0x4c
    &&& data[3] == 0x46
    &&& (data[4] == 1 || data[4] == 2)
    &&& (data[4] == 2 ==> data.len() >= 64)
}

/// Whether the header declares the 32-bit class.
pub open spec fn spec_is_32bit(data: Seq<u8>) -> bool {
    data[4] == 1
}

/// The object type field.
pub open spec fn spec_etype(data: Seq<u8>) -> int {
    le16(data, 16)
}

/// The entry point field.
pub open spec fn spec_entry(data: Seq<u8>) -> int {
    if spec_is_32bit(data) {
        le32(data, 24)
    } else {
        le64(data, 24)
    }
}

/// The program-header table's file offset.
pub open spec fn spec_phoff(data: Seq<u8>) -> int {
    if spec_is_32bit(data) {
        le32(data, 28)
    } else {
        le64(data, 32)
    }
}

/// The declared size of one program header.
pub open spec fn spec_phentsize(data: Seq<u8>) -> int {
    if spec_is_32bit(data) {
        le16(data, 42)
    } else {
        le16(data, 54)
    }
}

/// The number of program headers.
pub open spec fn spec_phnum(data: Seq<u8>) -> int {
    if spec_is_32bit(data) {
        le16(data, 44)
    } else {
        le16(data, 56)
    }
}

/// The size of one program header for the image's class: 32 or 56 bytes.
pub open spec fn ph_size(data: Seq<u8>) -> int {
    if spec_is_32bit(data) {
        32
    } else {
        56
    }
}

/// Whether the program-header table is well-formed: standard entry size
/// and every entry inside the bytes.
pub open spec fn phs_ok(data: Seq<u8>) -> bool {
    &&& spec_phentsize(data) == ph_size(data)
    &&& spec_phoff(data) + spec_phnum(data) * ph_size(data) <= data.len()
}

/// File offset of program header `i`.
pub open spec fn ph_base(data: Seq<u8>, i: int) -> int {
    spec_phoff(data) + i * ph_size(data)
}

/// The fields of the program header at offset `b`, by the class's layout.
pub open spec fn spec_segment(data: Seq<u8>, b: int) -> SegmentInfo {
    if spec_is_32bit(data) {
        SegmentInfo {
            load: le32(data, b) == 1,
            virtual_addr: le32(data, b + 8) as usize,
            offset: le32(data, b + 4) as usize,
            file_size: le32(data, b + 16) as usize,
            mem_size: le32(data, b + 20) as usize,
            readable: (le32(data, b + 24) / 4) % 2 == 1,
            writable: (le32(data, b + 24) / 2) % 2 == 1,
            executable: le32(data, b + 24) % 2 == 1,
        }
    } else {
        SegmentInfo {
            load: le32(data, b) == 1,
            virtual_addr: le64(data, b + 16) as usize,
            offset: le64(data, b + 8) as usize,
            file_size: le64(data, b + 32) as usize,
            mem_size: le64(data, b + 40) as usize,
            readable: (le32(data, b + 4) / 4) % 2 == 1,
            writable: (le32(data, b + 4) / 2) % 2 == 1,
            executable: le32(data, b + 4) % 2 == 1,
        }
    }
}

/// Whether program header `i`'s address and size fields fit a machine
/// word. Always true for the 32-bit class.
pub open spec fn seg_fields_fit(data: Seq<u8>, i: int) -> bool {
    if spec_is_32bit(data) {
        true
    } else {
        &&& le64(data, ph_base(data, i) + 16) <= usize::MAX
        &&& le64(data, ph_base(data, i) + 8) <= usize::MAX
        &&& le64(data, ph_base(data, i) + 32) <= usize::MAX
        &&& le64(data, ph_base(data, i) + 40) <= usize::MAX
    }
}

/// The bytes parse as a loadable executable image: well-formed header of
/// executable type, a well-formed program-header table, and every field
/// the loader reads fits a machine word.
pub open spec fn parse_ok(data: Seq<u8>) -> bool {
    &&& header_ok(data)
    &&& spec_etype(data) == 2
    &&& phs_ok(data)
    &&& spec_entry(data) <= usize::MAX
    &&& forall|i: int| 0 <= i < spec_phnum(data) ==> #[trigger] seg_fields_fit(data, i)
}

/// The image's program headers, in table order.
pub open spec fn spec_segments(data: Seq<u8>) -> Seq<SegmentInfo> {
    Seq::new(spec_phnum(data) as nat, |i: int| spec_segment(data, ph_base(data, i)))
}

/// Converts a `u64` field of the image to a machine word, refusing values
/// that do not fit.
fn field_to_usize(v: u64) -> (r: Option<usize>)
    ensures
        match r {
            Some(n) => n == v,
            None => v > usize::MAX,
        },
{
    if v > usize::MAX as u64 {
        None
    } else {
        Some(v as usize)
    }
}

/// Reads `data` as an executable image and yields its class, entry point
/// and program headers as plain values. Returns `Some` exactly when the
/// bytes satisfy `parse_ok`: anything else - wrong magic or class, a
/// non-executable object, a program-header table that leaves the bytes,
/// or a field too large for a machine word - yields `None`.
pub fn image_info_of(data: &[u8]) -> (r: Option<ImageInfo>)
    ensures
        match r {
            Some(info) => {
                &&& parse_ok(data@)
                &&& info.is_32bit == spec_is_32bit(data@)
                &&& info.entry_point == spec_entry(data@)
                &&& info.segments@ == spec_segments(data@)
            },
            None => !parse_ok(data@),
        },
{
    if data.len() < 52 {
        return None;
    }
    if !(data[0] == 0x7f && data[1] == 0x45 && data[2] == 0x4c && data[3] == 0x46) {
        return None;
    }
    let is_32bit: bool = if data[4] == 1 {
        true
    } else if data[4] == 2 {
        false
    } else {
        return None;
    };
    if !is_32bit && data.len() < 64 {
        return None;
    }
    if read_u16(data, 16) != 2 {
        return None;
    }
    let entry64: u64 = if is_32bit {
        read_u32(data, 24) as u64
    } else {
        read_u64(data, 24)
    };
    let entry_point = match field_to_usize(entry64) {
        Some(v) => v,
        None => {
            return None;
        },
    };
    let phoff64: u64 = if is_32bit {
        read_u32(data, 28) as u64
    } else {
        read_u64(data, 32)
    };
    let psz: usize = if is_32bit {
        32
    } else {
        56
    };
    let phentsize = read_u16(data, if is_32bit {
        42
    } else {
        54
    });
    let phnum = read_u16(data, if is_32bit {
        44
    } else {
        56
    }) as usize;
    if phentsize as usize != psz {
        return None;
    }
    let phoff = match field_to_usize(phoff64) {
        Some(v) => v,
        None => {
            proof {
                assert(spec_phoff(data@) > data@.len());
                assert(spec_phnum(data@) * ph_size(data@) >= 0) by (nonlinear_arith)
                    requires
                        spec_phnum(data@) >= 0 && ph_size(data@) >= 0,
                ;
            }
            return None;
        },
    };
    proof {
        assert(0 <= phnum * psz <= 0xffff * 56) by (nonlinear_arith)
            requires
                0 <= phnum <= 0xffff && 0 <= psz <= 56,
        ;
    }
    let table_len = phnum * psz;
    let table_end = match phoff.checked_add(table_len) {
        Some(e) => e,
        None => {
            return None;
        },
    };
    if table_end > data.len() {
        return None;
    }
    let mut segments: Vec<SegmentInfo> = Vec::new();
    let mut i: usize = 0;
    proof {
        assert(spec_segments(data@).take(0) =~= Seq::<SegmentInfo>::empty());
    }
    while i < phnum
        invariant
            i <= phnum,
            phnum == spec_phnum(data@),
            psz == ph_size(data@),
            phoff == spec_phoff(data@),
            is_32bit == spec_is_32bit(data@),
            header_ok(data@),
            spec_etype(data@) == 2,
            phs_ok(data@),
            spec_entry(data@) <= usize::MAX,
            forall|k: int| 0 <= k < i ==> #[trigger] seg_fields_fit(data@, k),
            phoff + phnum * psz <= data@.len(),
            data@.len() <= usize::MAX,
            segments@ == spec_segments(data@).take(i as int),
        decreases phnum - i,
    {
        proof {
            assert(0 <= i * psz && i * psz + psz <= phnum * psz) by (nonlinear_arith)
                requires
                    0 <= i < phnum && 0 <= psz,
            ;
        }
        let b = phoff + i * psz;
        let ghost bi = ph_base(data@, i as int);
        proof {
            assert(b == bi);
            assert(bi + psz <= data@.len());
        }
        let seg: SegmentInfo = if is_32bit {
            let flags = read_u32(data, b + 24);
            SegmentInfo {
                load: read_u32(data, b) == 1,
                virtual_addr: read_u32(data, b + 8) as usize,
                offset: read_u32(data, b + 4) as usize,
                file_size: read_u32(data, b + 16) as usize,
                mem_size: read_u32(data, b + 20) as usize,
                readable: (flags / 4) % 2 == 1,
                writable: (flags / 2) % 2 == 1,
                executable: flags % 2 == 1,
            }
        } else {
            let virtual_addr = match field_to_usize(read_u64(data, b + 16)) {
                Some(v) => v,
                None => {
                    proof {
                        assert(!seg_fields_fit(data@, i as int));
                    }
                    return None;
                },
            };
            let offset = match field_to_usize(read_u64(data, b + 8)) {
                Some(v) => v,
                None => {
                    proof {
                        assert(!seg_fields_fit(data@, i as int));
                    }
                    return None;
                },
            };
            let file_size = match field_to_usize(read_u64(data, b + 32)) {
                Some(v) => v,
                None => {
                    proof {
                        assert(!seg_fields_fit(data@, i as int));
                    }
                    return None;
                },
            };
            let mem_size = match field_to_usize(read_u64(data, b + 40)) {
                Some(v) => v,
                None => {
                    proof {
                        assert(!seg_fields_fit(data@, i as int));
                    }
                    return None;
                },
            };
            let flags = read_u32(data, b + 4);
            SegmentInfo {
                load: read_u32(data, b) == 1,
                virtual_addr,
                offset,
                file_size,
                mem_size,
                readable: (flags / 4) % 2 == 1,
                writable: (flags / 2) % 2 == 1,
                executable: flags % 2 == 1,
            }
        };
        proof {
            assert(seg_fields_fit(data@, i as int));
            assert(seg == spec_segment(data@, bi));
            assert(spec_segments(data@)[i as int] == spec_segment(data@, bi));
            assert(spec_segments(data@).take(i as int + 1) =~= spec_segments(data@).take(
                i as int,
            ).push(spec_segment(data@, bi)));
        }
        segments.push(seg);
        i += 1;
    }
    proof {
        assert(spec_segments(data@).take(phnum as int) =~= spec_segments(data@));
    }
    Some(ImageInfo { is_32bit, entry_point, segments })
}

} // verus!
