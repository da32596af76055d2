//! One data channel of a scan: its name, its section of the header, and its samples.

use std::ops::Range;
use vstd::prelude::*;

use crate::metadata::{
    get_int_spec, get_string_spec, metadata_error_text, Entries, Metadata, MetadataError,
    MetadataErrorModel,
};
use crate::numbers::{nat_digits, usize_to_string};
use crate::text::{join_pieces, pieces_view, plain_pieces, plain_text, push_str, PieceModel, TextPiece};

verus! {

/// Key of the byte offset of a channel's data in the file.
pub const DATA_OFFSET_KEY: &'static str = "data offset";

/// Key of the byte length of a channel's data.
pub const DATA_LENGTH_KEY: &'static str = "data length";

/// Key of the entry that names the channel.
pub const IMAGE_DATA_KEY: &'static str = "@2:image data";

/// Pattern whose group 1 is the channel name: the text between the outer quotes.
pub const CHANNEL_NAME_PATTERN: &'static str = "\\\"(.+)\\\"";

/// A data channel: its name, its header section and its 16-bit samples.  The name is the
/// shown text of the `@2:image data` entry, which may be a float.
#[derive(Debug, Clone)]
pub struct Channel {
    pub name: TextPiece,
    pub metadata: Metadata,
    pub data: Vec<i16>,
}

pub struct ChannelModel {
    pub name: PieceModel,
    pub metadata: Entries,
    pub data: Seq<i16>,
}

impl View for Channel {
    type V = ChannelModel;

    open spec fn view(&self) -> ChannelModel {
        ChannelModel { name: self.name@, metadata: self.metadata@, data: self.data@ }
    }
}

/// What failed while reading a channel or its samples.
#[derive(Debug, Clone)]
pub enum ChannelError {
    /// A header entry the channel needs could not be read.
    Metadata(MetadataError),
    /// The data length is not a whole number of samples.
    OddLength(usize),
    /// The data range `start..end` lies outside the file.
    OutOfBuffer { start: usize, end: usize },
    /// The samples `start..end` lie outside the channel's `len` samples.
    RangeOutOfBounds { start: usize, end: usize, len: usize, name: TextPiece },
    /// Sample `index` lies outside the channel's `len` samples.
    IndexOutOfBounds { index: usize, len: usize },
}

pub enum ChannelErrorModel {
    Metadata(MetadataErrorModel),
    OddLength(usize),
    OutOfBuffer { start: usize, end: usize },
    RangeOutOfBounds { start: usize, end: usize, len: usize, name: PieceModel },
    IndexOutOfBounds { index: usize, len: usize },
}

impl View for ChannelError {
    type V = ChannelErrorModel;

    open spec fn view(&self) -> ChannelErrorModel {
        match self {
            ChannelError::Metadata(e) => ChannelErrorModel::Metadata(e@),
            ChannelError::OddLength(n) => ChannelErrorModel::OddLength(*n),
            ChannelError::OutOfBuffer { start, end } => ChannelErrorModel::OutOfBuffer {
                start: *start,
                end: *end,
            },
            ChannelError::RangeOutOfBounds { start, end, len, name } =>
                ChannelErrorModel::RangeOutOfBounds { start: *start, end: *end, len: *len, name: name@ },
            ChannelError::IndexOutOfBounds { index, len } => ChannelErrorModel::IndexOutOfBounds {
                index: *index,
                len: *len,
            },
        }
    }
}

/// The 16-bit signed integer whose little-endian bytes are `lo`, `hi`
/// (`i16::from_le_bytes([lo, hi])`).
pub open spec fn le_i16(lo: u8, hi: u8) -> i16 {
    let v = lo as int + 256 * (hi as int);
    (if v >= 32768 {
        v - 65536
    } else {
        v
    }) as i16
}

/// The samples that little-endian byte pairs encode; a last odd byte is ignored.
pub open spec fn decode_samples(bytes: Seq<u8>) -> Seq<i16> {
    Seq::new(bytes.len() / 2, |k: int| le_i16(bytes[2 * k], bytes[2 * k + 1]))
}

/// What `get_channel_data` gives for a channel section and the file's bytes.
pub open spec fn channel_data_spec(metadata: Entries, buffer: Seq<u8>) -> Result<Seq<i16>, ChannelErrorModel> {
    match get_int_spec(metadata, DATA_OFFSET_KEY@, None) {
        Err(e) => Err(ChannelErrorModel::Metadata(e)),
        Ok(offset) => match get_int_spec(metadata, DATA_LENGTH_KEY@, None) {
            Err(e) => Err(ChannelErrorModel::Metadata(e)),
            Ok(length) => if length % 2 != 0 {
                Err(ChannelErrorModel::OddLength(length as usize))
            } else if offset + length > buffer.len() {
                Err(
                    ChannelErrorModel::OutOfBuffer {
                        start: offset as usize,
                        end: ((offset + length) % (usize::MAX as int + 1)) as usize,
                    },
                )
            } else {
                Ok(decode_samples(buffer.subrange(offset, offset + length)))
            },
        },
    }
}

/// What `Channel::from_metadata` gives.
pub open spec fn channel_spec(metadata: Entries, buffer: Seq<u8>) -> Result<ChannelModel, ChannelErrorModel> {
    match channel_data_spec(metadata, buffer) {
        Err(e) => Err(e),
        Ok(data) => match get_string_spec(metadata, IMAGE_DATA_KEY@, Some(CHANNEL_NAME_PATTERN@)) {
            Err(e) => Err(ChannelErrorModel::Metadata(e)),
            Ok(name) => Ok(ChannelModel { name, metadata, data }),
        },
    }
}

/// One sample from its two little-endian bytes.
fn sample_from_le(lo: u8, hi: u8) -> (r: i16)
    ensures
        r == le_i16(lo, hi),
{
    let v: i32 = lo as i32 + 256 * (hi as i32);
    if v >= 32768 {
        (v - 65536) as i16
    } else {
        v as i16
    }
}

/// Decodes `buffer[start..end]` into samples.
fn decode_range(buffer: &[u8], start: usize, end: usize) -> (data: Vec<i16>)
    requires
        start <= end <= buffer@.len(),
        (end - start) % 2 == 0,
    ensures
        data@ == decode_samples(buffer@.subrange(start as int, end as int)),
{
    let ghost bytes = buffer@.subrange(start as int, end as int);
    let count = (end - start) / 2;
    let mut data: Vec<i16> = Vec::new();
    let mut k: usize = 0;
    while k < count
        invariant
            start <= end <= buffer@.len(),
            count == (end - start) / 2,
            bytes == buffer@.subrange(start as int, end as int),
            k <= count,
            data@.len() == k,
            forall|j: int| 0 <= j < k ==> data@[j] == le_i16(bytes[2 * j], bytes[2 * j + 1]),
        decreases count - k,
    {
        let i = start + 2 * k;
        let s = sample_from_le(buffer[i], buffer[i + 1]);
        assert(bytes[2 * k] == buffer@[i as int] && bytes[2 * k + 1] == buffer@[i + 1]);
        data.push(s);
        k = k + 1;
    }
    assert(data@ =~= decode_samples(bytes));
    data
}

/// Reads a channel's samples: `data length` bytes from `data offset` in the file, as
/// little-endian `i16` pairs.
pub fn get_channel_data(metadata: &Metadata, buffer: &[u8]) -> (r: Result<Vec<i16>, ChannelError>)
    ensures
        match channel_data_spec(metadata@, buffer@) {
            Ok(d) => r matches Ok(v) && v@ == d,
            Err(e) => r matches Err(err) && err@ == e,
        },
{
    let offset = match metadata.get_int(DATA_OFFSET_KEY, None) {
        Ok(v) => v,
        Err(e) => return Err(ChannelError::Metadata(e)),
    };
    let length = match metadata.get_int(DATA_LENGTH_KEY, None) {
        Ok(v) => v,
        Err(e) => return Err(ChannelError::Metadata(e)),
    };
    if length % 2 != 0 {
        return Err(ChannelError::OddLength(length));
    }
    if offset > buffer.len() || length > buffer.len() - offset {
        let end = offset.wrapping_add(length);
        proof {
            let sum = offset as int + length as int;
            let m = usize::MAX as int + 1;
            if sum >= m {
                vstd::arithmetic::div_mod::lemma_mod_sub_multiples_vanish(sum - m, m);
                vstd::arithmetic::div_mod::lemma_small_mod((sum - m) as nat, m as nat);
            } else {
                vstd::arithmetic::div_mod::lemma_small_mod(sum as nat, m as nat);
            }
        }
        return Err(ChannelError::OutOfBuffer { start: offset, end });
    }
    Ok(decode_range(buffer, offset, offset + length))
}

impl Channel {
    /// Builds a channel from its header section: reads its samples from the file and its
    /// name from the quoted text of the `@2:image data` entry.
    pub fn from_metadata(metadata: Metadata, buffer: &[u8]) -> (r: Result<Channel, ChannelError>)
        ensures
            match channel_spec(metadata@, buffer@) {
                Ok(c) => r matches Ok(ch) && ch@ == c,
                Err(e) => r matches Err(err) && err@ == e,
            },
    {
        let data = get_channel_data(&metadata, buffer)?;
        let name = match metadata.get_string(IMAGE_DATA_KEY, Some(CHANNEL_NAME_PATTERN)) {
            Ok(n) => n,
            Err(e) => return Err(ChannelError::Metadata(e)),
        };
        Ok(Channel { name, metadata, data })
    }

    /// The samples `idx_range` of the channel.
    pub fn get_data_range(&self, idx_range: Range<usize>) -> (r: Result<&[i16], ChannelError>)
        ensures
            idx_range.start <= idx_range.end <= self.data@.len() ==> (r matches Ok(s) && s@
                == self.data@.subrange(idx_range.start as int, idx_range.end as int)),
            !(idx_range.start <= idx_range.end <= self.data@.len()) ==> (r matches Err(err) && err@
                == (ChannelErrorModel::RangeOutOfBounds {
                start: idx_range.start,
                end: idx_range.end,
                len: self.data@.len() as usize,
                name: self.name@,
            })),
    {
        let start = idx_range.start;
        let end = idx_range.end;
        if start <= end && end <= self.data.len() {
            Ok(&self.data.as_slice()[start..end])
        } else {
            Err(
                ChannelError::RangeOutOfBounds {
                    start,
                    end,
                    len: self.data.len(),
                    name: self.name.duplicate(),
                },
            )
        }
    }

    /// Sample `idx` of the channel.
    pub fn get_data_num(&self, idx: usize) -> (r: Result<i16, ChannelError>)
        ensures
            idx < self.data@.len() ==> r == Ok::<i16, ChannelError>(self.data@[idx as int]),
            idx >= self.data@.len() ==> (r matches Err(err) && err@
                == (ChannelErrorModel::IndexOutOfBounds { index: idx, len: self.data@.len() as usize })),
    {
        if idx < self.data.len() {
            Ok(self.data[idx])
        } else {
            Err(ChannelError::IndexOutOfBounds { index: idx, len: self.data.len() })
        }
    }
}

} // verus!

verus! {

/// A channel holds one sample per two bytes of its data length, and sample `k` is
/// made of bytes `offset + 2k` and `offset + 2k + 1` of the file.
pub proof fn law_samples_fill_data_length(metadata: Entries, buffer: Seq<u8>)
    ensures
        channel_data_spec(metadata, buffer) matches Ok(d) ==> {
            let offset = get_int_spec(metadata, DATA_OFFSET_KEY@, None)->Ok_0;
            let length = get_int_spec(metadata, DATA_LENGTH_KEY@, None)->Ok_0;
            &&& 2 * d.len() == length
            &&& offset + length <= buffer.len()
            &&& forall|k: int|
                0 <= k < d.len() ==> #[trigger] d[k] == le_i16(
                    buffer[offset + 2 * k],
                    buffer[offset + 2 * k + 1],
                )
        },
{
    if let Ok(d) = channel_data_spec(metadata, buffer) {
        if let Ok(offset) = get_int_spec(metadata, DATA_OFFSET_KEY@, None) {
            if let Ok(length) = get_int_spec(metadata, DATA_LENGTH_KEY@, None) {
                crate::metadata::lemma_get_int_in_range(metadata, DATA_OFFSET_KEY@, None);
                crate::metadata::lemma_get_int_in_range(metadata, DATA_LENGTH_KEY@, None);
                let bytes = buffer.subrange(offset, offset + length);
                assert(d == decode_samples(bytes));
                assert(bytes.len() == length);
                assert forall|k: int| 0 <= k < d.len() implies #[trigger] d[k] == le_i16(
                    buffer[offset + 2 * k],
                    buffer[offset + 2 * k + 1],
                ) by {
                    assert(2 * k + 1 < length);
                    assert(bytes[2 * k] == buffer[offset + 2 * k]);
                    assert(bytes[2 * k + 1] == buffer[offset + 2 * k + 1]);
                }
            }
        }
    }
}

} // verus!

verus! {

/// The message of a channel error.
pub open spec fn channel_error_text(e: ChannelErrorModel) -> Seq<PieceModel> {
    match e {
        ChannelErrorModel::Metadata(m) => metadata_error_text(m),
        ChannelErrorModel::OddLength(n) => plain_text("Rustyscope Error: data length ("@ + nat_digits(n as nat)
            + ") was not a multiple of 2."@),
        ChannelErrorModel::OutOfBuffer { start, end } => plain_text("Rustyscope error getting data in range "@
            + nat_digits(start as nat) + "-"@ + nat_digits(end as nat)),
        ChannelErrorModel::RangeOutOfBounds { start, end, len, name } => seq![
            PieceModel::Plain(
                "Rustyscope Error: failed to read bytes "@ + nat_digits(start as nat) + "-"@
                    + nat_digits(end as nat) + " in channel buffer of length "@ + nat_digits(len as nat)
                    + " while parsing scan's "@,
            ),
            name,
            PieceModel::Plain(" data. The file may be corrupted."@),
        ],
        ChannelErrorModel::IndexOutOfBounds { index, len } => plain_text("Rustyscope Error: failed to read byte "@
            + nat_digits(index as nat) + " in line of length "@ + nat_digits(len as nat)
            + " while parsing scan data. The file may be corrupted."@),
    }
}

impl ChannelError {
    /// The error's message.
    pub fn message(&self) -> (v: Vec<TextPiece>)
        ensures
            pieces_view(v@) == channel_error_text(self@),
    {
        let mut s = String::new();
        match self {
            ChannelError::Metadata(m) => {
                return m.message();
            },
            ChannelError::OddLength(n) => {
                push_str(&mut s, "Rustyscope Error: data length (");
                push_str(&mut s, usize_to_string(*n).as_str());
                push_str(&mut s, ") was not a multiple of 2.");
            },
            ChannelError::OutOfBuffer { start, end } => {
                push_str(&mut s, "Rustyscope error getting data in range ");
                push_str(&mut s, usize_to_string(*start).as_str());
                push_str(&mut s, "-");
                push_str(&mut s, usize_to_string(*end).as_str());
            },
            ChannelError::RangeOutOfBounds { start, end, len, name } => {
                push_str(&mut s, "Rustyscope Error: failed to read bytes ");
                push_str(&mut s, usize_to_string(*start).as_str());
                push_str(&mut s, "-");
                push_str(&mut s, usize_to_string(*end).as_str());
                push_str(&mut s, " in channel buffer of length ");
                push_str(&mut s, usize_to_string(*len).as_str());
                push_str(&mut s, " while parsing scan's ");
                let head = plain_pieces(s);
                let mut rest: Vec<TextPiece> = Vec::new();
                rest.push(name.duplicate());
                rest.push(TextPiece::Plain(String::from_str(" data. The file may be corrupted.")));
                let v = join_pieces(head, rest);
                assert(pieces_view(v@) =~= channel_error_text(self@));
                return v;
            },
            ChannelError::IndexOutOfBounds { index, len } => {
                push_str(&mut s, "Rustyscope Error: failed to read byte ");
                push_str(&mut s, usize_to_string(*index).as_str());
                push_str(&mut s, " in line of length ");
                push_str(&mut s, usize_to_string(*len).as_str());
                push_str(&mut s, " while parsing scan data. The file may be corrupted.");
            },
        }
        assert(plain_text(s@) =~= channel_error_text(self@));
        plain_pieces(s)
    }
}

} // verus!
