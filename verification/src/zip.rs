//! Single-file ZIP archives: the byte layout of the local file header, the central
//! directory record and the end-of-central-directory record, and reading an entry back.
use vstd::prelude::*;
use vstd::string::StringSliceAdditionalSpecFns;
use crate::checked::try_inflate;
use crate::inflate::{inflate_blocks, lsb_stream};

verus! {

/// `v` as two bytes, least significant first.
pub open spec fn le16(v: u16) -> Seq<u8> {
    seq![(v % 256) as u8, (v / 256) as u8]
}

/// `v` as four bytes, least significant first.
pub open spec fn le32(v: u32) -> Seq<u8> {
    seq![(v % 256) as u8, ((v / 256) % 256) as u8, ((v / 65536) % 256) as u8, (v / 16777216) as u8]
}

/// The 16-bit number stored least significant byte first at `at`.
pub open spec fn read16(b: Seq<u8>, at: int) -> u16 {
    (b[at] + 256 * b[at + 1]) as u16
}

/// The 32-bit number stored least significant byte first at `at`.
pub open spec fn read32(b: Seq<u8>, at: int) -> u32 {
    (b[at] + 256 * b[at + 1] + 65536 * b[at + 2] + 16777216 * b[at + 3]) as u32
}

/// `v` as two bytes, least significant first.
fn u16_bytes(v: u16) -> (b: [u8; 2])
    ensures
        b@ == le16(v),
{
    let b = [(v % 256) as u8, (v / 256) as u8];
    assert(b@ =~= le16(v));
    b
}

/// `v` as four bytes, least significant first.
fn u32_bytes(v: u32) -> (b: [u8; 4])
    ensures
        b@ == le32(v),
{
    let b = [(v % 256) as u8, ((v / 256) % 256) as u8, ((v / 65536) % 256) as u8, (v / 16777216) as u8];
    assert(b@ =~= le32(v));
    b
}

/// Appends the bytes of `s` to `v`.
fn extend(v: &mut Vec<u8>, s: &[u8])
    ensures
        final(v)@ == old(v)@ + s@,
{
    let mut i: usize = 0;
    while i < s.len()
        invariant
            i <= s@.len(),
            v@ == old(v)@ + s@.subrange(0, i as int),
        decreases s@.len() - i,
    {
        v.push(s[i]);
        i += 1;
        assert(s@.subrange(0, i as int) =~= s@.subrange(0, i - 1) + seq![s@[i - 1]]);
    }
    assert(s@.subrange(0, s@.len() as int) =~= s@);
}

/// The end-of-central-directory record of an archive.
pub struct EndCentralDirectoryRecord {
    pub end_central_directory_signature: [u8; 4],
    pub number_of_this_disk: u16,
    pub number_of_the_start_disk: u16,
    pub total_number_of_entries_on_this_disk: u16,
    pub total_number_of_entries: u16,
    pub size_of_central_directory: u32,
    pub offset_of_start_of_central_directory: u32,
    pub zip_file_comment_length: u16,
}

impl EndCentralDirectoryRecord {
    /// The record of an archive of one entry, on one disk, with no comment.
    pub fn create_central_directory_record() -> (r: Self)
        ensures
            r.end_central_directory_signature@ == seq![0x50u8, 0x4b, 0x05, 0x06],
            r.number_of_this_disk == 0,
            r.number_of_the_start_disk == 0,
            r.total_number_of_entries_on_this_disk == 1,
            r.total_number_of_entries == 1,
            r.size_of_central_directory == 0,
            r.offset_of_start_of_central_directory == 0,
            r.zip_file_comment_length == 0,
    {
        let r = EndCentralDirectoryRecord {
            end_central_directory_signature: [0x50, 0x4b, 0x05, 0x06],
            number_of_this_disk: 0,
            number_of_the_start_disk: 0,
            total_number_of_entries_on_this_disk: 1,
            total_number_of_entries: 1,
            size_of_central_directory: 0,
            offset_of_start_of_central_directory: 0,
            zip_file_comment_length: 0,
        };
        assert(r.end_central_directory_signature@ =~= seq![0x50u8, 0x4b, 0x05, 0x06]);
        r
    }

    /// The record's bytes, in the order of the ZIP format.
    pub open spec fn layout(&self) -> Seq<u8> {
        self.end_central_directory_signature@ + le16(self.number_of_this_disk) + le16(
            self.number_of_the_start_disk,
        ) + le16(self.total_number_of_entries_on_this_disk) + le16(self.total_number_of_entries)
            + le32(self.size_of_central_directory) + le32(self.offset_of_start_of_central_directory)
            + le16(self.zip_file_comment_length)
    }

    /// The record's bytes, in the order of the ZIP format.
    pub fn to_bytes(&self) -> (bytes: Vec<u8>)
        ensures
            bytes@ == self.layout(),
    {
        let mut bytes: Vec<u8> = Vec::new();
        extend(&mut bytes, &self.end_central_directory_signature);
        extend(&mut bytes, &u16_bytes(self.number_of_this_disk));
        extend(&mut bytes, &u16_bytes(self.number_of_the_start_disk));
        extend(&mut bytes, &u16_bytes(self.total_number_of_entries_on_this_disk));
        extend(&mut bytes, &u16_bytes(self.total_number_of_entries));
        extend(&mut bytes, &u32_bytes(self.size_of_central_directory));
        extend(&mut bytes, &u32_bytes(self.offset_of_start_of_central_directory));
        extend(&mut bytes, &u16_bytes(self.zip_file_comment_length));
        bytes
    }
}

/// The central directory record of one entry.
pub struct CentralDirectoryRecord {
    pub central_directory_signature: [u8; 4],
    pub specific_version: [u8; 1],
    pub made_by: [u8; 1],
    pub extract_version: [u8; 2],
    pub general_purpose_bit_flag: [u8; 2],
    pub compression_method: [u8; 2],
    pub last_mod_time: [u8; 2],
    pub last_mod_date: [u8; 2],
    pub crc_32: [u8; 4],
    pub compressed_file_size: [u8; 4],
    pub uncompressed_file_size: [u8; 4],
    pub file_name_length: u16,
    pub extra_field_length: u16,
    pub file_comment_length: u16,
    pub disk_number_start: u16,
    pub internal_file_attributes: u16,
    pub external_file_attributes: u32,
    pub offset_local_header: u32,
    pub file_name: Vec<u8>,
}

impl CentralDirectoryRecord {
    /// The record of a stored entry of `file_size` bytes named `file_name`, whose local
    /// header is at offset 0; the name's length is cut to 16 bits.
    pub fn create_central_directory_record(file_name: &str, file_size: u32) -> (r: Self)
        ensures
            r.central_directory_signature@ == seq![0x50u8, 0x4b, 0x01, 0x02],
            r.specific_version@ == seq![30u8],
            r.made_by@ == seq![65u8],
            r.extract_version@ == seq![20u8, 0],
            r.general_purpose_bit_flag@ == seq![0u8, 0],
            r.compression_method@ == seq![0u8, 0],
            r.last_mod_time@ == seq![0u8, 0],
            r.last_mod_date@ == seq![0u8, 0],
            r.crc_32@ == seq![0xefu8, 0xbe, 0xad, 0xde],
            r.compressed_file_size@ == le32(file_size),
            r.uncompressed_file_size@ == le32(file_size),
            r.file_name_length == file_name.spec_bytes().len() as u16,
            r.extra_field_length == 0,
            r.file_comment_length == 0,
            r.disk_number_start == 0,
            r.internal_file_attributes == 1,
            r.external_file_attributes == 1,
            r.offset_local_header == 0,
            r.file_name@ == file_name.spec_bytes(),
    {
        let file_name_bytes = file_name.as_bytes();
        let mut name: Vec<u8> = Vec::new();
        extend(&mut name, file_name_bytes);
        let size = u32_bytes(file_size);
        let r = CentralDirectoryRecord {
            central_directory_signature: [0x50, 0x4b, 0x01, 0x02],
            specific_version: [30],
            made_by: [65],
            extract_version: [20, 00],
            general_purpose_bit_flag: [0, 0],
            compression_method: [0, 0],
            last_mod_time: [0, 0],
            last_mod_date: [0, 0],
            crc_32: [0xef, 0xbe, 0xad, 0xde],
            compressed_file_size: size,
            uncompressed_file_size: size,
            file_name_length: file_name_bytes.len() as u16,
            extra_field_length: 0,
            file_comment_length: 0,
            disk_number_start: 0,
            internal_file_attributes: 1,
            external_file_attributes: 1,
            offset_local_header: 0,
            file_name: name,
        };
        assert(r.central_directory_signature@ =~= seq![0x50u8, 0x4b, 0x01, 0x02]);
        assert(r.specific_version@ =~= seq![30u8]);
        assert(r.made_by@ =~= seq![65u8]);
        assert(r.extract_version@ =~= seq![20u8, 0]);
        assert(r.general_purpose_bit_flag@ =~= seq![0u8, 0]);
        assert(r.compression_method@ =~= seq![0u8, 0]);
        assert(r.last_mod_time@ =~= seq![0u8, 0]);
        assert(r.last_mod_date@ =~= seq![0u8, 0]);
        assert(r.crc_32@ =~= seq![0xefu8, 0xbe, 0xad, 0xde]);
        r
    }

    /// The record's bytes, in the order of the ZIP format.
    pub open spec fn layout(&self) -> Seq<u8> {
        self.central_directory_signature@ + self.specific_version@ + self.made_by@ + self.extract_version@
            + self.general_purpose_bit_flag@ + self.compression_method@ + self.last_mod_time@
            + self.last_mod_date@ + self.crc_32@ + self.compressed_file_size@ + self.uncompressed_file_size@
            + le16(self.file_name_length) + le16(self.extra_field_length) + le16(self.file_comment_length)
            + le16(self.disk_number_start) + le16(self.internal_file_attributes) + le32(
            self.external_file_attributes,
        ) + le32(self.offset_local_header) + self.file_name@
    }

    /// The record's bytes, in the order of the ZIP format.
    pub fn to_bytes(&self) -> (bytes: Vec<u8>)
        ensures
            bytes@ == self.layout(),
    {
        let mut bytes: Vec<u8> = Vec::new();
        extend(&mut bytes, &self.central_directory_signature);
        extend(&mut bytes, &self.specific_version);
        extend(&mut bytes, &self.made_by);
        extend(&mut bytes, &self.extract_version);
        extend(&mut bytes, &self.general_purpose_bit_flag);
        extend(&mut bytes, &self.compression_method);
        extend(&mut bytes, &self.last_mod_time);
        extend(&mut bytes, &self.last_mod_date);
        extend(&mut bytes, &self.crc_32);
        extend(&mut bytes, &self.compressed_file_size);
        extend(&mut bytes, &self.uncompressed_file_size);
        extend(&mut bytes, &u16_bytes(self.file_name_length));
        extend(&mut bytes, &u16_bytes(self.extra_field_length));
        extend(&mut bytes, &u16_bytes(self.file_comment_length));
        extend(&mut bytes, &u16_bytes(self.disk_number_start));
        extend(&mut bytes, &u16_bytes(self.internal_file_attributes));
        extend(&mut bytes, &u32_bytes(self.external_file_attributes));
        extend(&mut bytes, &u32_bytes(self.offset_local_header));
        extend(&mut bytes, self.file_name.as_slice());
        bytes
    }
}

/// The local file header of one entry, with its name and data.
#[derive(Debug)]
pub struct LocalFileRecord {
    pub local_file_signature: [u8; 4],
    pub extract_version: [u8; 2],
    pub general_purpose_flag: [u8; 2],
    pub compression_method: [u8; 2],
    pub last_mod_file_time: [u8; 2],
    pub last_mod_file_date: [u8; 2],
    pub crc_32: [u8; 4],
    pub extra_field_length: [u8; 2],
    pub file_name_length: u16,
    pub compressed_file_size: u32,
    pub uncompressed_file_size: u32,
    pub file_data: Vec<u8>,
    pub file_name: Vec<u8>,
}

impl LocalFileRecord {
    /// The record of an entry named `file_name` holding `file_contents`, marked as deflated;
    /// the lengths are cut to 16 and 32 bits.
    pub fn create_local_file_record(file_name: &str, file_contents: &str) -> (r: Self)
        ensures
            r.local_file_signature@ == seq![0x50u8, 0x4b, 0x03, 0x04],
            r.extract_version@ == seq![0x20u8, 0x00],
            r.general_purpose_flag@ == seq![0u8, 0],
            r.compression_method@ == seq![0x08u8, 0x00],
            r.last_mod_file_time@ == seq![0u8, 0],
            r.last_mod_file_date@ == seq![0u8, 0],
            r.crc_32@ == seq![0xdeu8, 0xad, 0xbe, 0xef],
            r.extra_field_length@ == seq![0u8, 0],
            r.file_name_length == file_name.spec_bytes().len() as u16,
            r.compressed_file_size == file_contents.spec_bytes().len() as u32,
            r.uncompressed_file_size == file_contents.spec_bytes().len() as u32,
            r.file_data@ == file_contents.spec_bytes(),
            r.file_name@ == file_name.spec_bytes(),
    {
        let contents_bytes = file_contents.as_bytes();
        let file_size = contents_bytes.len();
        let file_name_bytes = file_name.as_bytes();
        let mut data: Vec<u8> = Vec::new();
        extend(&mut data, contents_bytes);
        let mut name: Vec<u8> = Vec::new();
        extend(&mut name, file_name_bytes);
        let r = LocalFileRecord {
            local_file_signature: [0x50, 0x4b, 0x03, 0x04],
            extract_version: [0x20, 0x00],
            general_purpose_flag: [0x00, 0x00],
            compression_method: [0x08, 0x00],
            last_mod_file_time: [0x00, 0x00],
            last_mod_file_date: [0x00, 0x00],
            crc_32: [0xde, 0xad, 0xbe, 0xef],
            file_data: data,
            file_name: name,
            file_name_length: file_name_bytes.len() as u16,
            extra_field_length: [0x00, 0x00],
            compressed_file_size: file_size as u32,
            uncompressed_file_size: file_size as u32,
        };
        assert(r.local_file_signature@ =~= seq![0x50u8, 0x4b, 0x03, 0x04]);
        assert(r.extract_version@ =~= seq![0x20u8, 0x00]);
        assert(r.general_purpose_flag@ =~= seq![0u8, 0]);
        assert(r.compression_method@ =~= seq![0x08u8, 0x00]);
        assert(r.last_mod_file_time@ =~= seq![0u8, 0]);
        assert(r.last_mod_file_date@ =~= seq![0u8, 0]);
        assert(r.crc_32@ =~= seq![0xdeu8, 0xad, 0xbe, 0xef]);
        assert(r.extra_field_length@ =~= seq![0u8, 0]);
        r
    }

    /// The record's bytes, in the order of the ZIP format: the fixed fields, the name, the data.
    pub open spec fn layout(&self) -> Seq<u8> {
        self.local_file_signature@ + self.extract_version@ + self.general_purpose_flag@
            + self.compression_method@ + self.last_mod_file_time@ + self.last_mod_file_date@ + self.crc_32@
            + le32(self.compressed_file_size) + le32(self.uncompressed_file_size) + le16(
            self.file_name_length,
        ) + self.extra_field_length@ + self.file_name@ + self.file_data@
    }

    /// The record's bytes, in the order of the ZIP format.
    pub fn to_bytes(&self) -> (bytes: Vec<u8>)
        ensures
            bytes@ == self.layout(),
    {
        let mut bytes: Vec<u8> = Vec::new();
        extend(&mut bytes, &self.local_file_signature);
        extend(&mut bytes, &self.extract_version);
        extend(&mut bytes, &self.general_purpose_flag);
        extend(&mut bytes, &self.compression_method);
        extend(&mut bytes, &self.last_mod_file_time);
        extend(&mut bytes, &self.last_mod_file_date);
        extend(&mut bytes, &self.crc_32);
        extend(&mut bytes, &u32_bytes(self.compressed_file_size));
        extend(&mut bytes, &u32_bytes(self.uncompressed_file_size));
        extend(&mut bytes, &u16_bytes(self.file_name_length));
        extend(&mut bytes, &self.extra_field_length);
        extend(&mut bytes, self.file_name.as_slice());
        extend(&mut bytes, self.file_data.as_slice());
        bytes
    }
}

/// The bytes of the local record of an entry named `name` holding `data`.
pub open spec fn local_record_bytes(name: Seq<u8>, data: Seq<u8>) -> Seq<u8> {
    seq![0x50u8, 0x4b, 0x03, 0x04, 0x20, 0x00, 0, 0, 0x08, 0x00, 0, 0, 0, 0, 0xde, 0xad, 0xbe, 0xef]
        + le32(data.len() as u32) + le32(data.len() as u32) + le16(name.len() as u16) + seq![0u8, 0]
        + name + data
}

/// The bytes of the central directory record of a stored entry named `name` of `size` bytes.
pub open spec fn central_record_bytes(name: Seq<u8>, size: u32) -> Seq<u8> {
    seq![0x50u8, 0x4b, 0x01, 0x02, 30, 65, 20, 0, 0, 0, 0, 0, 0, 0, 0, 0, 0xef, 0xbe, 0xad, 0xde]
        + le32(size) + le32(size) + le16(name.len() as u16) + le16(0) + le16(0) + le16(0) + le16(1)
        + le32(1) + le32(0) + name
}

/// The bytes of the end record of a one-entry archive.
pub open spec fn end_record_bytes() -> Seq<u8> {
    seq![0x50u8, 0x4b, 0x05, 0x06] + le16(0) + le16(0) + le16(1) + le16(1) + le32(0) + le32(0) + le16(0)
}

/// The bytes of a one-entry archive: the local record of `file_name` holding
/// `file_contents`, its central directory record, and the end record.
pub fn zip0_bytes(file_name: &str, file_contents: &str) -> (bytes: Vec<u8>)
    ensures
        bytes@ == local_record_bytes(file_name.spec_bytes(), file_contents.spec_bytes())
            + central_record_bytes(file_name.spec_bytes(), file_contents.spec_bytes().len() as u32)
            + end_record_bytes(),
{
    let file_size = file_contents.as_bytes().len() as u32;
    let local_record = LocalFileRecord::create_local_file_record(file_name, file_contents);
    let central_record = CentralDirectoryRecord::create_central_directory_record(file_name, file_size);
    let end_record = EndCentralDirectoryRecord::create_central_directory_record();
    let mut bytes = local_record.to_bytes();
    let c = central_record.to_bytes();
    extend(&mut bytes, c.as_slice());
    let e = end_record.to_bytes();
    extend(&mut bytes, e.as_slice());
    assert(local_record.layout() =~= local_record_bytes(file_name.spec_bytes(), file_contents.spec_bytes()));
    assert(central_record.layout() =~= central_record_bytes(file_name.spec_bytes(), file_size));
    assert(end_record.layout() =~= end_record_bytes());
    bytes
}

/// Where an entry's data lies: after the 30 fixed bytes of the local header and
/// `file_name_length` more, for `file_size` bytes.
pub fn get_file_data_idxes(file_name_length: u32, file_size: u32) -> (idxes: (usize, usize))
    requires
        file_name_length + 30 + file_size <= usize::MAX,
    ensures
        idxes.0 == file_name_length + 30,
        idxes.1 == file_name_length + 30 + file_size,
{
    (file_name_length as usize + 30, file_name_length as usize + (30 + file_size as usize))
}

/// The fields of a local file header that an unzipper reads.
pub struct LocalHeader {
    pub compression_method: u16,
    pub file_size: u32,
    pub file_name_length: u16,
    pub extra_field_length: u16,
    pub file_name: Vec<u8>,
}

/// Reads the local file header at the start of an archive: the compression method (bytes
/// 8..10), the size (18..22), the lengths of the name (26..28) and of the extra field
/// (28..30), and the name after the 30 fixed bytes. `None` where the archive is too short.
pub fn read_local_header(buffer: &[u8]) -> (header: Option<LocalHeader>)
    ensures
        match header {
            None => buffer@.len() < 30 || buffer@.len() < 30 + read16(buffer@, 26),
            Some(h) => {
                &&& 30 <= buffer@.len()
                &&& h.compression_method == read16(buffer@, 8)
                &&& h.file_size == read32(buffer@, 18)
                &&& h.file_name_length == read16(buffer@, 26)
                &&& h.extra_field_length == read16(buffer@, 28)
                &&& 30 + h.file_name_length <= buffer@.len()
                &&& h.file_name@ == buffer@.subrange(30, 30 + h.file_name_length)
            },
        },
{
    if buffer.len() < 30 {
        return None;
    }
    let compression_method = buffer[8] as u16 + 256 * buffer[9] as u16;
    let file_size = buffer[18] as u32 + 256 * buffer[19] as u32 + 65536 * buffer[20] as u32 + 16777216
        * buffer[21] as u32;
    let file_name_length = buffer[26] as u16 + 256 * buffer[27] as u16;
    let extra_field_length = buffer[28] as u16 + 256 * buffer[29] as u16;
    if buffer.len() < 30 + file_name_length as usize {
        return None;
    }
    let name = &buffer[30..30 + file_name_length as usize];
    let mut file_name: Vec<u8> = Vec::new();
    extend(&mut file_name, name);
    Some(LocalHeader { compression_method, file_size, file_name_length, extra_field_length, file_name })
}

/// The `file_size` bytes of an entry's data, which starts `name_len` bytes after the 30
/// fixed bytes of its header. `None` where the archive is too short.
pub fn file_data(buffer: &[u8], name_len: u32, file_size: u32) -> (data: Option<Vec<u8>>)
    requires
        name_len + 30 + file_size <= usize::MAX,
    ensures
        match data {
            None => buffer@.len() < name_len + 30 + file_size,
            Some(d) => name_len + 30 + file_size <= buffer@.len() && d@ == buffer@.subrange(
                name_len + 30,
                name_len + 30 + file_size,
            ),
        },
{
    let (file_start, file_end) = get_file_data_idxes(name_len, file_size);
    if file_end > buffer.len() {
        return None;
    }
    let slice = &buffer[file_start..file_end];
    let mut d: Vec<u8> = Vec::new();
    extend(&mut d, slice);
    Some(d)
}

/// The data region of the first entry of an archive: the `file_size` bytes after the 30 fixed
/// bytes of the local header, its name and its extra field. `None` where the archive is too
/// short.
pub open spec fn entry_region(b: Seq<u8>) -> Option<Seq<u8>> {
    if b.len() < 30 || b.len() < 30 + read16(b, 26) {
        None
    } else {
        let start = 30 + read16(b, 26) + read16(b, 28);
        let end = start + read32(b, 18);
        if b.len() < end {
            None
        } else {
            Some(b.subrange(start, end))
        }
    }
}

/// What the first entry of an archive holds: its data as stored for compression method 0,
/// its data inflated for method 8. `None` where the archive is too short, the method is
/// another one, or the deflated data does not inflate.
pub open spec fn entry_contents_spec(b: Seq<u8>) -> Option<Seq<u8>> {
    match entry_region(b) {
        None => None,
        Some(r) => {
            if read16(b, 8) == 0 {
                Some(r)
            } else if read16(b, 8) == 8 {
                match inflate_blocks(lsb_stream(r), 0, Seq::empty()) {
                    Some((o, _)) => Some(o),
                    None => None,
                }
            } else {
                None
            }
        },
    }
}

/// The contents of the first entry of an archive: copied where it is stored (method 0),
/// inflated where it is deflated (method 8). `None` where the archive is too short, the
/// method is another one, or the deflated data is malformed.
pub fn entry_contents(buffer: &[u8]) -> (contents: Option<Vec<u8>>)
    requires
        buffer@.len() <= usize::MAX / 8,
    ensures
        match contents {
            None => entry_contents_spec(buffer@) is None,
            Some(c) => entry_contents_spec(buffer@) == Some(c@),
        },
{
    let header = match read_local_header(buffer) {
        Some(h) => h,
        None => {
            return None;
        },
    };
    let name_len = header.file_name_length as u32 + header.extra_field_length as u32;
    if name_len as u64 + 30 + header.file_size as u64 > buffer.len() as u64 {
        return None;
    }
    let data = match file_data(buffer, name_len, header.file_size) {
        Some(d) => d,
        None => {
            return None;
        },
    };
    if header.compression_method == 0 {
        Some(data)
    } else if header.compression_method == 8 {
        try_inflate(data.as_slice())
    } else {
        None
    }
}

/// Reading back two bytes written least significant first gives the number.
proof fn lemma_read16(v: u16, rest: Seq<u8>)
    ensures
        read16(le16(v) + rest, 0) == v,
{
    let b = le16(v) + rest;
    assert(b[0] == (v % 256) as u8 && b[1] == (v / 256) as u8);
    assert(v % 256 + 256 * (v / 256) == v) by (bit_vector);
}

/// Reading back four bytes written least significant first gives the number.
proof fn lemma_read32(v: u32, rest: Seq<u8>)
    ensures
        read32(le32(v) + rest, 0) == v,
{
    let b = le32(v) + rest;
    assert(b[0] == (v % 256) as u8 && b[1] == ((v / 256) % 256) as u8);
    assert(b[2] == ((v / 65536) % 256) as u8 && b[3] == (v / 16777216) as u8);
    assert(v / 16777216 < 256) by (bit_vector);
    assert(v % 256 + 256 * ((v / 256) % 256) + 65536 * ((v / 65536) % 256) + 16777216 * (v / 16777216) == v)
        by (bit_vector);
}

/// Law: reading back the archive that `zip0_bytes` writes gives its entry: compression method
/// 8, the data's size, the name's length and the name, no extra field, and the data.
pub proof fn lemma_zip0_read_back(name: Seq<u8>, data: Seq<u8>)
    requires
        name.len() <= u16::MAX,
        data.len() <= u32::MAX,
    ensures
        ({
            let b = local_record_bytes(name, data) + central_record_bytes(name, data.len() as u32)
                + end_record_bytes();
            &&& 30 + name.len() + data.len() <= b.len()
            &&& read16(b, 8) == 8
            &&& read32(b, 18) == data.len()
            &&& read16(b, 26) == name.len()
            &&& read16(b, 28) == 0
            &&& b.subrange(30, 30 + name.len() as int) == name
            &&& b.subrange(30 + name.len() as int, 30 + name.len() + data.len() as int) == data
        }),
{
    let b = local_record_bytes(name, data) + central_record_bytes(name, data.len() as u32) + end_record_bytes();
    let size = data.len() as u32;
    let nl = name.len() as u16;
    assert(size == data.len());
    assert(nl == name.len());
    let fixed = seq![0x50u8, 0x4b, 0x03, 0x04, 0x20, 0x00, 0, 0, 0x08, 0x00, 0, 0, 0, 0, 0xde, 0xad, 0xbe, 0xef];
    let tail = central_record_bytes(name, size) + end_record_bytes();
    assert(b =~= fixed + le32(size) + le32(size) + le16(nl) + seq![0u8, 0] + name + data + tail);
    assert(b[8] == 0x08 && b[9] == 0);
    let r18 = b.subrange(18, b.len() as int);
    assert(r18 =~= le32(size) + (le32(size) + le16(nl) + seq![0u8, 0] + name + data + tail));
    lemma_read32(size, le32(size) + le16(nl) + seq![0u8, 0] + name + data + tail);
    assert(read32(b, 18) == read32(r18, 0));
    let r26 = b.subrange(26, b.len() as int);
    assert(r26 =~= le16(nl) + (seq![0u8, 0] + name + data + tail));
    lemma_read16(nl, seq![0u8, 0] + name + data + tail);
    assert(read16(b, 26) == read16(r26, 0));
    assert(b[28] == 0 && b[29] == 0);
    assert(b.subrange(30, 30 + name.len() as int) =~= name);
    assert(b.subrange(30 + name.len() as int, 30 + name.len() + data.len() as int) =~= data);
}

/// The 30 fixed bytes of a local file header: signature, version 20, no flags, compression
/// `method`, zero time, date and checksum, `size` as both sizes, and the lengths of the name
/// and the extra field.
pub open spec fn local_header_bytes(method: u16, size: u32, name_len: u16, extra_len: u16) -> Seq<u8> {
    seq![0x50u8, 0x4b, 0x03, 0x04] + le16(20) + le16(0) + le16(method) + le16(0) + le16(0) + le32(0) + le32(size)
        + le32(size) + le16(name_len) + le16(extra_len)
}

/// Law: an archive whose first entry is stored (method 0) holds its data right after the
/// header, the name and the extra field, whatever the extra field is: its contents are the
/// data.
pub proof fn lemma_stored_entry_contents(name: Seq<u8>, extra: Seq<u8>, data: Seq<u8>, rest: Seq<u8>)
    requires
        name.len() <= u16::MAX,
        extra.len() <= u16::MAX,
        data.len() <= u32::MAX,
    ensures
        entry_contents_spec(
            local_header_bytes(0, data.len() as u32, name.len() as u16, extra.len() as u16) + name + extra + data
                + rest,
        ) == Some(data),
{
    let size = data.len() as u32;
    let nl = name.len() as u16;
    let el = extra.len() as u16;
    let h = local_header_bytes(0, size, nl, el);
    let b = h + name + extra + data + rest;
    let tail = name + extra + data + rest;
    assert(h.len() == 30);
    let r8 = b.subrange(8, b.len() as int);
    assert(r8 =~= le16(0) + (le16(0) + le16(0) + le32(0) + le32(size) + le32(size) + le16(nl) + le16(el) + tail));
    lemma_read16(0, le16(0) + le16(0) + le32(0) + le32(size) + le32(size) + le16(nl) + le16(el) + tail);
    assert(read16(b, 8) == read16(r8, 0));
    let r18 = b.subrange(18, b.len() as int);
    assert(r18 =~= le32(size) + (le32(size) + le16(nl) + le16(el) + tail));
    lemma_read32(size, le32(size) + le16(nl) + le16(el) + tail);
    assert(read32(b, 18) == read32(r18, 0));
    let r26 = b.subrange(26, b.len() as int);
    assert(r26 =~= le16(nl) + (le16(el) + tail));
    lemma_read16(nl, le16(el) + tail);
    assert(read16(b, 26) == read16(r26, 0));
    let r28 = b.subrange(28, b.len() as int);
    assert(r28 =~= le16(el) + tail);
    lemma_read16(el, tail);
    assert(read16(b, 28) == read16(r28, 0));
    assert(nl == name.len() && el == extra.len() && size == data.len());
    let start: int = 30 + name.len() as int + extra.len() as int;
    assert(b.subrange(start, start + data.len() as int) =~= data);
}

} // verus!
