//! The header of a Nanoscope file and the file assembled from it.

use ordered_hash_map::OrderedHashMap;
use vstd::prelude::*;

use crate::channel::{
    channel_error_text, channel_spec, Channel, ChannelError, ChannelErrorModel, ChannelModel,
};
use crate::lines::{buffer_lines, filter_valid_header_lines, split_lines, valid_header_lines};
use crate::metadata::{
    delimiter_index, get_float_spec, insert_line_spec, keys_distinct, lookup, metadata_error_text,
    parse_value_spec, unicode_lowercase, Entries, FloatSource, FloatSourceModel,
    Metadata, MetadataError, MetadataErrorModel,
};
use crate::numbers::{nat_digits, usize_to_string};
use crate::sections::{
    key_position, keys_unique, section_entries, section_map_drain, section_map_get,
    section_map_insert, section_map_new, section_map_remove,
};
use crate::text::{
    ascii_lower, ascii_lower_suffix, ascii_lower_suffix_eq, chars_of, join_pieces, pieces_view,
    plain_pieces, plain_text, push_str, PieceModel, TextPiece,
};

verus! {

/// Lines that start with this character open a section.
pub open spec fn section_prefix() -> char {
    '*'
}

/// A file shorter than this is refused.
pub const MIN_FILE_SIZE: usize = 32;

pub const FILE_LIST: &'static str = "file list";
pub const SCANNER_LIST: &'static str = "scanner list";
pub const CIAO_SCAN_LIST: &'static str = "ciao scan list";
pub const EQUIPMENT_LIST: &'static str = "equipment list";
pub const HSDC_LIST: &'static str = "hsdc list";
pub const MISC_DATA_LIST: &'static str = "misc. data list";
pub const ENGAGE_LIST: &'static str = "engage list";
pub const SWEEP_LIST: &'static str = "sweep list";
pub const CIAO_IMAGE_LIST: &'static str = "ciao image list";

/// A section of the header.
#[derive(Debug, Clone)]
pub enum HeaderSection {
    FileMetadata,
    ScannerMetadata,
    EquipmentMetadata,
    HSDCMetadata,
    MiscMetadata,
    EngageMetadata,
    SweepMetadata,
    /// The `n`-th channel section, counting from 0.
    Channels(usize),
    /// Any other section, by its lowercased name.
    Other(String),
}

pub enum SectionModel {
    FileMetadata,
    ScannerMetadata,
    EquipmentMetadata,
    HSDCMetadata,
    MiscMetadata,
    EngageMetadata,
    SweepMetadata,
    Channels(nat),
    Other(Seq<char>),
}

impl View for HeaderSection {
    type V = SectionModel;

    open spec fn view(&self) -> SectionModel {
        match self {
            HeaderSection::FileMetadata => SectionModel::FileMetadata,
            HeaderSection::ScannerMetadata => SectionModel::ScannerMetadata,
            HeaderSection::EquipmentMetadata => SectionModel::EquipmentMetadata,
            HeaderSection::HSDCMetadata => SectionModel::HSDCMetadata,
            HeaderSection::MiscMetadata => SectionModel::MiscMetadata,
            HeaderSection::EngageMetadata => SectionModel::EngageMetadata,
            HeaderSection::SweepMetadata => SectionModel::SweepMetadata,
            HeaderSection::Channels(i) => SectionModel::Channels(*i as nat),
            HeaderSection::Other(s) => SectionModel::Other(s@),
        }
    }
}

/// The section that a section line names, given its lowercased name and the index the
/// next channel section gets.
pub open spec fn classify_section(name: Seq<char>, channel_idx: nat) -> SectionModel {
    if name == FILE_LIST@ {
        SectionModel::FileMetadata
    } else if name == SCANNER_LIST@ || name == CIAO_SCAN_LIST@ {
        SectionModel::ScannerMetadata
    } else if name == EQUIPMENT_LIST@ {
        SectionModel::EquipmentMetadata
    } else if name == HSDC_LIST@ {
        SectionModel::HSDCMetadata
    } else if name == MISC_DATA_LIST@ {
        SectionModel::MiscMetadata
    } else if name == ENGAGE_LIST@ {
        SectionModel::EngageMetadata
    } else if name == SWEEP_LIST@ {
        SectionModel::SweepMetadata
    } else if name == CIAO_IMAGE_LIST@ {
        SectionModel::Channels(channel_idx)
    } else {
        SectionModel::Other(name)
    }
}

/// The header parser's state: the section that data lines go to, the index of the
/// current (or next) channel section, and the sections read so far in the order in which
/// their first data line came.
pub struct HeaderState {
    pub current: Option<SectionModel>,
    pub channel_idx: nat,
    pub sections: Seq<(SectionModel, Entries)>,
}

/// The position of section `s` in `sections`.
pub open spec fn section_position(sections: Seq<(SectionModel, Entries)>, s: SectionModel) -> Option<int>
    decreases sections.len(),
{
    if sections.len() == 0 {
        None
    } else if sections[0].0 == s {
        Some(0)
    } else {
        match section_position(sections.drop_first(), s) {
            Some(i) => Some(i + 1),
            None => None,
        }
    }
}

/// Adds a data line to section `s`, which is created empty at the end if it is new.
pub open spec fn add_section_line(sections: Seq<(SectionModel, Entries)>, s: SectionModel, line: Seq<char>) -> Result<
    Seq<(SectionModel, Entries)>,
    MetadataErrorModel,
> {
    match section_position(sections, s) {
        Some(i) => match insert_line_spec(sections[i].1, line) {
            Ok(e) => Ok(sections.update(i, (s, e))),
            Err(x) => Err(x),
        },
        None => match insert_line_spec(Seq::empty(), line) {
            Ok(e) => Ok(sections.push((s, e))),
            Err(x) => Err(x),
        },
    }
}

/// One header line: a `*` line opens a section (a channel section after a channel section
/// takes the next index); another line is a data line of the current section, and is
/// skipped when no section is open.
pub open spec fn header_step(st: HeaderState, line: Seq<char>) -> Result<HeaderState, MetadataErrorModel> {
    if line.len() > 0 && line[0] == section_prefix() {
        let idx = if st.current matches Some(SectionModel::Channels(_)) {
            st.channel_idx + 1
        } else {
            st.channel_idx
        };
        Ok(
            HeaderState {
                current: Some(classify_section(ascii_lower(line.drop_first()), idx)),
                channel_idx: idx,
                sections: st.sections,
            },
        )
    } else {
        match st.current {
            None => Ok(st),
            Some(s) => match add_section_line(st.sections, s, line) {
                Ok(secs) => Ok(HeaderState { current: st.current, channel_idx: st.channel_idx, sections: secs }),
                Err(e) => Err(e),
            },
        }
    }
}

pub open spec fn initial_header_state() -> HeaderState {
    HeaderState { current: None, channel_idx: 0, sections: Seq::empty() }
}

/// The parser's state after the header lines `lines`.
pub open spec fn header_run(lines: Seq<Seq<char>>) -> Result<HeaderState, MetadataErrorModel>
    decreases lines.len(),
{
    if lines.len() == 0 {
        Ok(initial_header_state())
    } else {
        match header_run(lines.drop_last()) {
            Ok(st) => header_step(st, lines.last()),
            Err(e) => Err(e),
        }
    }
}

// ---------------------------------------------------------------------------------------
// Keys of the section map
// ---------------------------------------------------------------------------------------

/// The section a map key stands for; `names` are the other sections' names.
pub open spec fn decode_key(k: (u64, u64), names: Seq<Seq<char>>) -> SectionModel {
    if k.0 == 0 {
        SectionModel::FileMetadata
    } else if k.0 == 1 {
        SectionModel::ScannerMetadata
    } else if k.0 == 2 {
        SectionModel::EquipmentMetadata
    } else if k.0 == 3 {
        SectionModel::HSDCMetadata
    } else if k.0 == 4 {
        SectionModel::MiscMetadata
    } else if k.0 == 5 {
        SectionModel::EngageMetadata
    } else if k.0 == 6 {
        SectionModel::SweepMetadata
    } else if k.0 == 7 {
        SectionModel::Channels(k.1 as nat)
    } else {
        SectionModel::Other(names[k.1 as int])
    }
}

pub open spec fn key_valid(k: (u64, u64), names: Seq<Seq<char>>) -> bool {
    &&& k.0 <= 8
    &&& k.0 < 7 ==> k.1 == 0
    &&& k.0 == 8 ==> k.1 < names.len()
    &&& k.0 == 7 ==> k.1 <= usize::MAX
}

pub open spec fn names_distinct(names: Seq<Seq<char>>) -> bool {
    forall|i: int, j: int| 0 <= i < j < names.len() ==> names[i] != names[j]
}

proof fn lemma_decode_injective(k1: (u64, u64), k2: (u64, u64), names: Seq<Seq<char>>)
    requires
        key_valid(k1, names),
        key_valid(k2, names),
        names_distinct(names),
    ensures
        decode_key(k1, names) == decode_key(k2, names) <==> k1 == k2,
{
    if decode_key(k1, names) == decode_key(k2, names) {
        if k1.0 == 8 && k2.0 == 8 && k1.1 != k2.1 {
            if k1.1 < k2.1 {
                assert(names[k1.1 as int] != names[k2.1 as int]);
            } else {
                assert(names[k2.1 as int] != names[k1.1 as int]);
            }
        }
    }
}

pub open spec fn name_seq(names: Seq<String>) -> Seq<Seq<char>> {
    names.map_values(|s: String| s@)
}

/// The parsed header: the sections in a map keyed by section, whose values are
/// positions in `tables`; `names` holds the names of the other sections.
struct Header {
    sections: OrderedHashMap<(u64, u64), usize>,
    tables: Vec<Metadata>,
    names: Vec<String>,
}

impl Header {
    spec fn entries(&self) -> Seq<((u64, u64), usize)> {
        section_entries(self.sections)
    }

    spec fn wf(&self) -> bool {
        let e = self.entries();
        let names = name_seq(self.names@);
        &&& keys_unique(e)
        &&& names_distinct(names)
        &&& forall|i: int| 0 <= i < e.len() ==> key_valid((#[trigger] e[i]).0, names)
        &&& forall|i: int| 0 <= i < e.len() ==> (#[trigger] e[i]).1 < self.tables@.len()
        &&& forall|i: int, j: int| 0 <= i < j < e.len() ==> e[i].1 != e[j].1
    }

    /// The sections in order, with their entries.
    spec fn model(&self) -> Seq<(SectionModel, Entries)> {
        let e = self.entries();
        Seq::new(
            e.len(),
            |i: int| (decode_key(e[i].0, name_seq(self.names@)), self.tables@[e[i].1 as int]@),
        )
    }
}


// ---------------------------------------------------------------------------------------
// Errors
// ---------------------------------------------------------------------------------------

/// What failed while turning scan data into lines.
#[derive(Debug, Clone)]
pub enum ScanError {
    /// There is no channel 0 (Z height).
    NoHeightChannel,
    /// There is no channel 1 (Y scan).
    NoXChannel,
    /// A scale entry could not be read.
    Metadata(MetadataError),
    /// A line runs outside a channel's samples.
    Channel(ChannelError),
}

pub enum ScanErrorModel {
    NoHeightChannel,
    NoXChannel,
    Metadata(MetadataErrorModel),
    Channel(ChannelErrorModel),
}

impl View for ScanError {
    type V = ScanErrorModel;

    open spec fn view(&self) -> ScanErrorModel {
        match self {
            ScanError::NoHeightChannel => ScanErrorModel::NoHeightChannel,
            ScanError::NoXChannel => ScanErrorModel::NoXChannel,
            ScanError::Metadata(e) => ScanErrorModel::Metadata(e@),
            ScanError::Channel(e) => ScanErrorModel::Channel(e@),
        }
    }
}

/// What failed while loading a file.
#[derive(Debug, Clone)]
pub enum LoadError {
    /// The file is shorter than `MIN_FILE_SIZE` bytes.
    TooShort,
    /// A data line of the header could not be read.
    Line(MetadataError),
    /// A section the file must have is missing.
    MissingSection(HeaderSection),
    /// Channel section `index` could not be read.
    Channel { index: usize, error: ChannelError },
    /// The scan data could not be turned into lines.
    Scan(ScanError),
}

pub enum LoadErrorModel {
    TooShort,
    Line(MetadataErrorModel),
    MissingSection(SectionModel),
    Channel { index: nat, error: ChannelErrorModel },
    Scan(ScanErrorModel),
}

impl View for LoadError {
    type V = LoadErrorModel;

    open spec fn view(&self) -> LoadErrorModel {
        match self {
            LoadError::TooShort => LoadErrorModel::TooShort,
            LoadError::Line(e) => LoadErrorModel::Line(e@),
            LoadError::MissingSection(s) => LoadErrorModel::MissingSection(s@),
            LoadError::Channel { index, error } => LoadErrorModel::Channel {
                index: *index as nat,
                error: error@,
            },
            LoadError::Scan(e) => LoadErrorModel::Scan(e@),
        }
    }
}

/// What `parse_header` gives for a file's bytes: the sections of its header lines.
pub open spec fn parse_header_spec(buffer: Seq<u8>) -> Result<Seq<(SectionModel, Entries)>, LoadErrorModel> {
    if buffer.len() < MIN_FILE_SIZE {
        Err(LoadErrorModel::TooShort)
    } else {
        match header_run(valid_header_lines(buffer_lines(buffer))) {
            Ok(st) => Ok(st.sections),
            Err(e) => Err(LoadErrorModel::Line(e)),
        }
    }
}

// ---------------------------------------------------------------------------------------
// Parsing the header
// ---------------------------------------------------------------------------------------

proof fn lemma_key_position(e: Seq<((u64, u64), usize)>, k: (u64, u64))
    ensures
        match key_position(e, k) {
            Some(p) => 0 <= p < e.len() && e[p].0 == k && forall|j: int| 0 <= j < p ==> e[j].0 != k,
            None => forall|j: int| 0 <= j < e.len() ==> e[j].0 != k,
        },
    decreases e.len(),
{
    if e.len() > 0 && e[0].0 != k {
        lemma_key_position(e.drop_first(), k);
        assert forall|j: int| 1 <= j < e.len() implies e[j].0 == e.drop_first()[j - 1].0 by {}
    }
}

proof fn lemma_section_position(m: Seq<(SectionModel, Entries)>, s: SectionModel)
    ensures
        match section_position(m, s) {
            Some(p) => 0 <= p < m.len() && m[p].0 == s && forall|j: int| 0 <= j < p ==> m[j].0 != s,
            None => forall|j: int| 0 <= j < m.len() ==> m[j].0 != s,
        },
    decreases m.len(),
{
    if m.len() > 0 && m[0].0 != s {
        lemma_section_position(m.drop_first(), s);
        assert forall|j: int| 1 <= j < m.len() implies m[j].0 == m.drop_first()[j - 1].0 by {}
    }
}

proof fn lemma_section_position_unique(m: Seq<(SectionModel, Entries)>, s: SectionModel, p: int)
    requires
        0 <= p < m.len(),
        m[p].0 == s,
        forall|j: int| 0 <= j < p ==> m[j].0 != s,
    ensures
        section_position(m, s) == Some(p),
{
    lemma_section_position(m, s);
    match section_position(m, s) {
        Some(q) => {
            if q < p {
                assert(m[q].0 != s);
            } else if q > p {
                assert(m[p].0 != s);
            }
        },
        None => {
            assert(m[p].0 != s);
        },
    }
}

impl Header {
    /// The position of the entry under `k` in the model is that of its section.
    proof fn lemma_position(&self, k: (u64, u64))
        requires
            self.wf(),
            key_valid(k, name_seq(self.names@)),
        ensures
            section_position(self.model(), decode_key(k, name_seq(self.names@))) == key_position(
                self.entries(),
                k,
            ),
    {
        let e = self.entries();
        let names = name_seq(self.names@);
        let m = self.model();
        let s = decode_key(k, names);
        lemma_key_position(e, k);
        assert forall|j: int| 0 <= j < e.len() implies (m[j].0 == s <==> e[j].0 == k) by {
            lemma_decode_injective(e[j].0, k, names);
        }
        match key_position(e, k) {
            Some(p) => {
                lemma_section_position_unique(m, s, p);
            },
            None => {
                lemma_section_position(m, s);
                if let Some(q) = section_position(m, s) {
                    assert(m[q].0 == s);
                }
            },
        }
    }
}

/// Lemma: growing the list of other-section names keeps the meaning of valid keys.
proof fn lemma_decode_extend(k: (u64, u64), names: Seq<Seq<char>>, more: Seq<Seq<char>>)
    requires
        key_valid(k, names),
        names.len() <= more.len(),
        forall|i: int| 0 <= i < names.len() ==> names[i] == more[i],
    ensures
        key_valid(k, more),
        decode_key(k, names) == decode_key(k, more),
{
}

/// Whether `chars[1..]`, lowercased, is the section name `lit`.
fn names_section(chars: &Vec<char>, lit: &str) -> (r: bool)
    requires
        chars@.len() > 0,
    ensures
        r == (ascii_lower(chars@.drop_first()) == lit@),
{
    let l = chars_of(lit);
    assert(chars@.subrange(1, chars@.len() as int) =~= chars@.drop_first());
    ascii_lower_suffix_eq(chars, 1, &l)
}

/// The position of `name` in `names`.
fn find_name(names: &Vec<String>, name: &String) -> (r: Option<usize>)
    ensures
        match r {
            Some(j) => j < names@.len() && names@[j as int]@ == name@,
            None => forall|i: int| 0 <= i < names@.len() ==> (#[trigger] names@[i])@ != name@,
        },
{
    let n = names.len();
    let mut j: usize = 0;
    while j < n
        invariant
            n == names@.len(),
            j <= n,
            forall|i: int| 0 <= i < j ==> (#[trigger] names@[i])@ != name@,
        decreases n - j,
    {
        if names[j] == *name {
            return Some(j);
        }
        j = j + 1;
    }
    None
}

/// The map key of the section that the section line `chars` opens; the name of an other
/// section is added to `names` when it is new.
fn section_key(chars: &Vec<char>, idx: usize, names: &mut Vec<String>) -> (k: (u64, u64))
    requires
        chars@.len() > 0,
        names_distinct(name_seq(old(names)@)),
    ensures
        names_distinct(name_seq(final(names)@)),
        old(names)@.len() <= final(names)@.len(),
        forall|i: int| 0 <= i < old(names)@.len() ==> (#[trigger] final(names)@[i])@ == old(names)@[i]@,
        key_valid(k, name_seq(final(names)@)),
        decode_key(k, name_seq(final(names)@)) == classify_section(
            ascii_lower(chars@.drop_first()),
            idx as nat,
        ),
{
    if names_section(chars, FILE_LIST) {
        (0, 0)
    } else if names_section(chars, SCANNER_LIST) || names_section(chars, CIAO_SCAN_LIST) {
        (1, 0)
    } else if names_section(chars, EQUIPMENT_LIST) {
        (2, 0)
    } else if names_section(chars, HSDC_LIST) {
        (3, 0)
    } else if names_section(chars, MISC_DATA_LIST) {
        (4, 0)
    } else if names_section(chars, ENGAGE_LIST) {
        (5, 0)
    } else if names_section(chars, SWEEP_LIST) {
        (6, 0)
    } else if names_section(chars, CIAO_IMAGE_LIST) {
        (7, idx as u64)
    } else {
        let name = ascii_lower_suffix(chars, 1);
        assert(chars@.subrange(1, chars@.len() as int) =~= chars@.drop_first());
        let n = names.len();
        if let Some(j) = find_name(names, &name) {
            assert(name_seq(names@)[j as int] == name@);
            return (8, j as u64);
        }
        let ghost before = names@;
        names.push(name);
        proof {
            let ns = name_seq(names@);
            assert forall|a: int, b: int| 0 <= a < b < ns.len() implies ns[a] != ns[b] by {
                if b == n {
                    assert(before[a]@ != name@);
                } else {
                    assert(name_seq(before)[a] != name_seq(before)[b]);
                }
            }
            assert(ns[n as int] == name@);
        }
        (8, n as u64)
    }
}


impl Header {
    /// While parsing, the tables are in the order of the map's entries.
    spec fn parse_inv(&self) -> bool {
        let e = self.entries();
        &&& self.wf()
        &&& e.len() == self.tables@.len()
        &&& forall|i: int| 0 <= i < e.len() ==> (#[trigger] e[i]).1 == i
    }

    fn new() -> (h: Header)
        ensures
            h.parse_inv(),
            h.model() == Seq::<(SectionModel, Entries)>::empty(),
            h.names@ == Seq::<String>::empty(),
    {
        let h = Header { sections: section_map_new(), tables: Vec::new(), names: Vec::new() };
        assert(h.model() =~= Seq::<(SectionModel, Entries)>::empty());
        h
    }

    /// Adds a data line to the section under `key`, creating the section when it is new.
    fn add_data_line(&mut self, key: (u64, u64), line: &str) -> (r: Result<(), MetadataError>)
        requires
            old(self).parse_inv(),
            key_valid(key, name_seq(old(self).names@)),
        ensures
            final(self).names@ == old(self).names@,
            match add_section_line(old(self).model(), decode_key(key, name_seq(old(self).names@)), line@) {
                Ok(m) => r is Ok && final(self).parse_inv() && final(self).model() == m,
                Err(e) => r matches Err(err) && err@ == e,
            },
    {
        let ghost names = name_seq(self.names@);
        let ghost sec = decode_key(key, names);
        let ghost m = self.model();
        let ghost e = self.entries();
        proof {
            self.lemma_position(key);
            lemma_key_position(e, key);
        }
        match section_map_get(&self.sections, key) {
            Some(idx) => {
                let ghost p = key_position(e, key)->0;
                assert(idx == p);
                let mut table = Metadata::new();
                self.tables.set_and_swap(idx, &mut table);
                assert(table@ == m[p].1);
                let r = table.insert_line(line);
                self.tables.set(idx, table);
                proof {
                    if r is Ok {
                        assert forall|i: int| 0 <= i < e.len() implies (#[trigger] e[i]).1 < self.tables@.len() by {}
                        assert(self.model() =~= m.update(p, (sec, table@)));
                    }
                }
                r
            },
            None => {
                let mut table = Metadata::new();
                match table.insert_line(line) {
                    Err(err) => {
                        return Err(err);
                    },
                    Ok(()) => {},
                }
                let n = self.tables.len();
                self.tables.push(table);
                let _ = section_map_insert(&mut self.sections, key, n);
                proof {
                    let e2 = self.entries();
                    assert(e2 == e.push((key, n)));
                    assert forall|i: int, j: int| 0 <= i < j < e2.len() implies e2[i].1 != e2[j].1 by {}
                    assert(self.model() =~= m.push((sec, table@)));
                }
                Ok(())
            },
        }
    }
}

/// Once a header line fails, the header fails with that error.
proof fn lemma_header_run_err(lines: Seq<Seq<char>>, k: int, m: int)
    requires
        0 <= k <= m <= lines.len(),
        header_run(lines.take(k)) is Err,
    ensures
        header_run(lines.take(m)) == header_run(lines.take(k)),
    decreases m - k,
{
    if m > k {
        lemma_header_run_err(lines, k, m - 1);
        assert(lines.take(m).drop_last() =~= lines.take(m - 1));
    }
}

/// Reads the header of a file: its header lines, grouped into sections.
fn parse_header(buffer: &[u8]) -> (r: Result<Header, LoadError>)
    ensures
        match parse_header_spec(buffer@) {
            Ok(m) => r matches Ok(h) && h.wf() && h.model() == m,
            Err(e) => r matches Err(err) && err@ == e,
        },
{
    if buffer.len() < MIN_FILE_SIZE {
        return Err(LoadError::TooShort);
    }
    let split = split_lines(buffer);
    assert(split@.map_values(|l: &[u8]| l@) =~= buffer_lines(buffer@));
    let lines = filter_valid_header_lines(split);
    let ghost hl = valid_header_lines(buffer_lines(buffer@));
    let mut header = Header::new();
    let mut current: Option<(u64, u64)> = None;
    let mut channel_idx: usize = 0;
    let n = lines.len();
    let mut i: usize = 0;
    assert(hl.take(0) =~= Seq::<Seq<char>>::empty());
    while i < n
        invariant
            buffer@.len() >= MIN_FILE_SIZE,
            hl == valid_header_lines(buffer_lines(buffer@)),
            n == lines@.len(),
            n == hl.len(),
            forall|k: int| 0 <= k < n ==> (#[trigger] lines@[k])@ == hl[k],
            i <= n,
            channel_idx <= i,
            header.parse_inv(),
            current matches Some(k) ==> key_valid(k, name_seq(header.names@)),
            header_run(hl.take(i as int)) matches Ok(st) && st.sections == header.model()
                && st.channel_idx == channel_idx as nat && st.current == match current {
                Some(k) => Some(decode_key(k, name_seq(header.names@))),
                None => None::<SectionModel>,
            },
        decreases n - i,
    {
        let line = lines[i];
        let chars = chars_of(line);
        let ghost st = header_run(hl.take(i as int))->Ok_0;
        proof {
            assert(hl.take(i + 1).drop_last() =~= hl.take(i as int));
            assert(hl.take(i + 1).last() == chars@);
        }
        if chars.len() > 0 && chars[0] == '*' {
            if let Some(k) = current {
                if k.0 == 7 {
                    channel_idx = channel_idx + 1;
                }
            }
            let ghost old_names = name_seq(header.names@);
            let ghost old_model = header.model();
            let k = section_key(&chars, channel_idx, &mut header.names);
            proof {
                let names2 = name_seq(header.names@);
                let e = header.entries();
                assert forall|j: int| 0 <= j < e.len() implies key_valid((#[trigger] e[j]).0, names2)
                    && decode_key(e[j].0, old_names) == decode_key(e[j].0, names2) by {
                    lemma_decode_extend(e[j].0, old_names, names2);
                }
                assert(header.model() =~= old_model);
            }
            current = Some(k);
        } else {
            match current {
                None => {},
                Some(k) => {
                    match header.add_data_line(k, line) {
                        Err(err) => {
                            proof {
                                lemma_header_run_err(hl, i + 1, n as int);
                                assert(hl.take(n as int) =~= hl);
                            }
                            return Err(LoadError::Line(err));
                        },
                        Ok(()) => {},
                    }
                },
            }
        }
        i = i + 1;
    }
    assert(hl.take(n as int) =~= hl);
    Ok(header)
}


// ---------------------------------------------------------------------------------------
// Scan lines
// ---------------------------------------------------------------------------------------

/// Scanner entry with the Z sensor's sensitivity in nm/V.
pub const H_SENS_KEY: &'static str = "@sens. zsensor";
/// Height-channel entry with the Z sensor's scale in V/LSB.
pub const H_SCALE_KEY: &'static str = "@2:z scale zsensor";
/// Scanner entry with the Y piezo's sensitivity in nm/V.
pub const X_SENS_KEY: &'static str = "@sens. ypiezo";
/// Y-channel entry with the Y scan's scale in V/LSB.
pub const X_SCALE_KEY: &'static str = "@2:z scale y scan";
/// Channel entry with the LSB scale.
pub const LSB_SCALE_KEY: &'static str = "z lsb scale";
/// Pattern whose group 1 is the number before ` V/LSB` in parentheses.
pub const V_PER_LSB_PATTERN: &'static str = "\\(([-+]?(?:\\d*\\.?\\d+)) V\\/LSB";
/// Pattern whose group 1 is the number before ` nm/V`.
pub const NM_PER_V_PATTERN: &'static str = "([-+]?(?:\\d*\\.?\\d+)) nm\\/V";

/// The six numbers that scale raw samples to nanometres, as read from the header: a
/// height sample scales by `height_nm_per_v * height_v_per_lsb / height_lsb_scale`, an
/// x sample by the same product of the `x_` numbers.
#[derive(Debug, Clone)]
pub struct ScanScales {
    pub height_nm_per_v: FloatSource,
    pub height_v_per_lsb: FloatSource,
    pub height_lsb_scale: FloatSource,
    pub x_nm_per_v: FloatSource,
    pub x_v_per_lsb: FloatSource,
    pub x_lsb_scale: FloatSource,
}

pub struct ScalesModel {
    pub height_nm_per_v: FloatSourceModel,
    pub height_v_per_lsb: FloatSourceModel,
    pub height_lsb_scale: FloatSourceModel,
    pub x_nm_per_v: FloatSourceModel,
    pub x_v_per_lsb: FloatSourceModel,
    pub x_lsb_scale: FloatSourceModel,
}

impl View for ScanScales {
    type V = ScalesModel;

    open spec fn view(&self) -> ScalesModel {
        ScalesModel {
            height_nm_per_v: self.height_nm_per_v@,
            height_v_per_lsb: self.height_v_per_lsb@,
            height_lsb_scale: self.height_lsb_scale@,
            x_nm_per_v: self.x_nm_per_v@,
            x_v_per_lsb: self.x_v_per_lsb@,
            x_lsb_scale: self.x_lsb_scale@,
        }
    }
}

/// The raw scan lines, each as its `(x, height)` samples, and the scales that turn them
/// into nanometres.
#[derive(Debug, Clone)]
pub struct ScanLines {
    pub lines: Vec<(Vec<i16>, Vec<i16>)>,
    pub scales: ScanScales,
}

pub struct ScanLinesModel {
    pub lines: Seq<(Seq<i16>, Seq<i16>)>,
    pub scales: ScalesModel,
}

pub open spec fn lines_view(lines: Seq<(Vec<i16>, Vec<i16>)>) -> Seq<(Seq<i16>, Seq<i16>)> {
    lines.map_values(|l: (Vec<i16>, Vec<i16>)| (l.0@, l.1@))
}

impl View for ScanLines {
    type V = ScanLinesModel;

    open spec fn view(&self) -> ScanLinesModel {
        ScanLinesModel { lines: lines_view(self.lines@), scales: self.scales@ }
    }
}

pub open spec fn min_len(a: int, b: int) -> int {
    if a <= b {
        a
    } else {
        b
    }
}

/// Where a line that starts at `off` with length word `len` ends: `off + len` in the
/// wrapping arithmetic of `usize`.
pub open spec fn line_end(off: int, len: i16) -> int {
    if off + len > usize::MAX {
        off + len - (usize::MAX + 1)
    } else if off + len < 0 {
        off + len + (usize::MAX + 1)
    } else {
        off + len
    }
}

/// The scan lines from offset `off` on.  At each line start the y-scan channel holds
/// the line's length word `len`; the line's samples are `off + 1 .. off + len` of both
/// channels (height checked first), and the next line starts after them.
pub open spec fn segment_lines(x: ChannelModel, h: ChannelModel, off: int) -> Result<
    Seq<(Seq<i16>, Seq<i16>)>,
    ChannelErrorModel,
>
    decreases min_len(h.data.len() as int, x.data.len() as int) + 1 - off,
{
    if off < 0 || off >= min_len(h.data.len() as int, x.data.len() as int) {
        Ok(Seq::empty())
    } else {
        let start = off + 1;
        let end = line_end(off, x.data[off]);
        if !(start <= end <= h.data.len()) {
            Err(
                ChannelErrorModel::RangeOutOfBounds {
                    start: start as usize,
                    end: end as usize,
                    len: h.data.len() as usize,
                    name: h.name,
                },
            )
        } else if !(start <= end <= x.data.len()) {
            Err(
                ChannelErrorModel::RangeOutOfBounds {
                    start: start as usize,
                    end: end as usize,
                    len: x.data.len() as usize,
                    name: x.name,
                },
            )
        } else {
            match segment_lines(x, h, end + 1) {
                Ok(rest) => Ok(seq![(x.data.subrange(start, end), h.data.subrange(start, end))] + rest),
                Err(e) => Err(e),
            }
        }
    }
}

/// What `get_scan_lines` gives: channel 0 is the height, channel 1 the y scan; the six
/// scales are read in order, then the lines.
pub open spec fn scan_spec(scanner: Entries, channels: Seq<ChannelModel>) -> Result<
    ScanLinesModel,
    ScanErrorModel,
> {
    if channels.len() < 1 {
        Err(ScanErrorModel::NoHeightChannel)
    } else if channels.len() < 2 {
        Err(ScanErrorModel::NoXChannel)
    } else {
        let h = channels[0];
        let x = channels[1];
        match get_float_spec(scanner, H_SENS_KEY@, Some(NM_PER_V_PATTERN@)) {
            Err(e) => Err(ScanErrorModel::Metadata(e)),
            Ok(hnm) => match get_float_spec(h.metadata, H_SCALE_KEY@, Some(V_PER_LSB_PATTERN@)) {
                Err(e) => Err(ScanErrorModel::Metadata(e)),
                Ok(hv) => match get_float_spec(h.metadata, LSB_SCALE_KEY@, None) {
                    Err(e) => Err(ScanErrorModel::Metadata(e)),
                    Ok(hl) => match get_float_spec(scanner, X_SENS_KEY@, Some(NM_PER_V_PATTERN@)) {
                        Err(e) => Err(ScanErrorModel::Metadata(e)),
                        Ok(xnm) => match get_float_spec(x.metadata, X_SCALE_KEY@, Some(V_PER_LSB_PATTERN@)) {
                            Err(e) => Err(ScanErrorModel::Metadata(e)),
                            Ok(xv) => match get_float_spec(x.metadata, LSB_SCALE_KEY@, None) {
                                Err(e) => Err(ScanErrorModel::Metadata(e)),
                                Ok(xl) => match segment_lines(x, h, 0) {
                                    Err(e) => Err(ScanErrorModel::Channel(e)),
                                    Ok(lines) => Ok(
                                        ScanLinesModel {
                                            lines,
                                            scales: ScalesModel {
                                                height_nm_per_v: hnm,
                                                height_v_per_lsb: hv,
                                                height_lsb_scale: hl,
                                                x_nm_per_v: xnm,
                                                x_v_per_lsb: xv,
                                                x_lsb_scale: xl,
                                            },
                                        },
                                    ),
                                },
                            },
                        },
                    },
                },
            },
        }
    }
}

/// Channel 0, the height channel.
fn get_height_channel(channels: &Vec<Channel>) -> (r: Result<&Channel, ScanError>)
    ensures
        channels@.len() >= 1 ==> (r matches Ok(c) && c == channels@[0]),
        channels@.len() < 1 ==> (r matches Err(e) && e@ == ScanErrorModel::NoHeightChannel),
{
    if channels.len() >= 1 {
        Ok(&channels[0])
    } else {
        Err(ScanError::NoHeightChannel)
    }
}

/// Channel 1, the y-scan channel.
fn get_x_channel(channels: &Vec<Channel>) -> (r: Result<&Channel, ScanError>)
    ensures
        channels@.len() >= 2 ==> (r matches Ok(c) && c == channels@[1]),
        channels@.len() < 2 ==> (r matches Err(e) && e@ == ScanErrorModel::NoXChannel),
{
    if channels.len() >= 2 {
        Ok(&channels[1])
    } else {
        Err(ScanError::NoXChannel)
    }
}

/// The V/LSB scale under `key`, taken from the parentheses before ` V/LSB`.
fn get_v_per_lsb(metadata: &Metadata, key: &str) -> (r: Result<FloatSource, MetadataError>)
    ensures
        match get_float_spec(metadata@, key@, Some(V_PER_LSB_PATTERN@)) {
            Ok(f) => r matches Ok(v) && v@ == f,
            Err(e) => r matches Err(err) && err@ == e,
        },
{
    metadata.get_float(key, Some(V_PER_LSB_PATTERN))
}

/// The LSB scale.
fn get_lsb_scale(metadata: &Metadata) -> (r: Result<FloatSource, MetadataError>)
    ensures
        match get_float_spec(metadata@, LSB_SCALE_KEY@, None) {
            Ok(f) => r matches Ok(v) && v@ == f,
            Err(e) => r matches Err(err) && err@ == e,
        },
{
    metadata.get_float(LSB_SCALE_KEY, None)
}

/// The nm/V sensitivity under `key`, taken from the number before ` nm/V`.
fn get_axis_nm_per_v(metadata: &Metadata, key: &str) -> (r: Result<FloatSource, MetadataError>)
    ensures
        match get_float_spec(metadata@, key@, Some(NM_PER_V_PATTERN@)) {
            Ok(f) => r matches Ok(v) && v@ == f,
            Err(e) => r matches Err(err) && err@ == e,
        },
{
    metadata.get_float(key, Some(NM_PER_V_PATTERN))
}

/// Cuts the height and y-scan samples into scan lines.
pub fn segment_scan_lines(x: &Channel, height: &Channel) -> (r: Result<Vec<(Vec<i16>, Vec<i16>)>, ChannelError>)
    ensures
        match segment_lines(x@, height@, 0) {
            Ok(l) => r matches Ok(v) && lines_view(v@) == l,
            Err(e) => r matches Err(err) && err@ == e,
        },
{
    let mut lines: Vec<(Vec<i16>, Vec<i16>)> = Vec::new();
    let min_length = if height.data.len() <= x.data.len() {
        height.data.len()
    } else {
        x.data.len()
    };
    let mut off: usize = 0;
    while off < min_length
        invariant
            min_length == min_len(height@.data.len() as int, x@.data.len() as int),
            min_length <= height@.data.len(),
            min_length <= x@.data.len(),
            segment_lines(x@, height@, 0) == match segment_lines(x@, height@, off as int) {
                Ok(rest) => Ok(lines_view(lines@) + rest),
                Err(e) => Err(e),
            },
        decreases min_length - off,
    {
        let line_length = match x.get_data_num(off) {
            Ok(v) => v,
            Err(e) => {
                return Err(e);
            },
        };
        let end = off.wrapping_add_signed(line_length as isize);
        let start = off + 1;
        assert(end as int == line_end(off as int, line_length));
        let line_height = match height.get_data_range(start..end) {
            Ok(s) => s,
            Err(e) => {
                return Err(e);
            },
        };
        let line_x = match x.get_data_range(start..end) {
            Ok(s) => s,
            Err(e) => {
                return Err(e);
            },
        };
        let ghost before = lines_view(lines@);
        let item = (vstd::slice::slice_to_vec(line_x), vstd::slice::slice_to_vec(line_height));
        lines.push(item);
        proof {
            assert(lines_view(lines@) =~= before.push((line_x@, line_height@)));
            let rest = segment_lines(x@, height@, end + 1);
            if let Ok(r) = rest {
                assert(lines_view(lines@) + r =~= before + (seq![(line_x@, line_height@)] + r));
            }
        }
        if end >= min_length {
            off = min_length;
        } else {
            off = end + 1;
        }
    }
    proof {
        assert(lines_view(lines@) + Seq::<(Seq<i16>, Seq<i16>)>::empty() =~= lines_view(lines@));
    }
    Ok(lines)
}

/// Reads the scales and cuts the scan data into lines.
pub fn get_scan_lines(scanner_metadata: &Metadata, channels: &Vec<Channel>) -> (r: Result<ScanLines, ScanError>)
    ensures
        match scan_spec(scanner_metadata@, channels@.map_values(|c: Channel| c@)) {
            Ok(s) => r matches Ok(v) && v@ == s,
            Err(e) => r matches Err(err) && err@ == e,
        },
{
    let ghost cs = channels@.map_values(|c: Channel| c@);
    let height = get_height_channel(channels)?;
    let x = get_x_channel(channels)?;
    assert(cs[0] == height@ && cs[1] == x@);
    let height_nm_per_v = match get_axis_nm_per_v(scanner_metadata, H_SENS_KEY) {
        Ok(v) => v,
        Err(e) => return Err(ScanError::Metadata(e)),
    };
    let height_v_per_lsb = match get_v_per_lsb(&height.metadata, H_SCALE_KEY) {
        Ok(v) => v,
        Err(e) => return Err(ScanError::Metadata(e)),
    };
    let height_lsb_scale = match get_lsb_scale(&height.metadata) {
        Ok(v) => v,
        Err(e) => return Err(ScanError::Metadata(e)),
    };
    let x_nm_per_v = match get_axis_nm_per_v(scanner_metadata, X_SENS_KEY) {
        Ok(v) => v,
        Err(e) => return Err(ScanError::Metadata(e)),
    };
    let x_v_per_lsb = match get_v_per_lsb(&x.metadata, X_SCALE_KEY) {
        Ok(v) => v,
        Err(e) => return Err(ScanError::Metadata(e)),
    };
    let x_lsb_scale = match get_lsb_scale(&x.metadata) {
        Ok(v) => v,
        Err(e) => return Err(ScanError::Metadata(e)),
    };
    let lines = match segment_scan_lines(x, height) {
        Ok(l) => l,
        Err(e) => return Err(ScanError::Channel(e)),
    };
    Ok(
        ScanLines {
            lines,
            scales: ScanScales {
                height_nm_per_v,
                height_v_per_lsb,
                height_lsb_scale,
                x_nm_per_v,
                x_v_per_lsb,
                x_lsb_scale,
            },
        },
    )
}


// ---------------------------------------------------------------------------------------
// The file
// ---------------------------------------------------------------------------------------

/// Takes section `s` out of `sections`, with its entries.
pub open spec fn remove_section(sections: Seq<(SectionModel, Entries)>, s: SectionModel) -> Option<
    (Entries, Seq<(SectionModel, Entries)>),
> {
    match section_position(sections, s) {
        Some(p) => Some((sections[p].1, sections.remove(p))),
        None => None,
    }
}

/// The optional sections and the channels collected from the sections that remain
/// after the file and scanner sections are taken out.
pub struct Assembly {
    pub equipment: Option<Entries>,
    pub hsdc: Option<Entries>,
    pub misc: Option<Entries>,
    pub engage: Option<Entries>,
    pub sweep: Option<Entries>,
    pub channels: Seq<ChannelModel>,
}

pub open spec fn empty_assembly() -> Assembly {
    Assembly { equipment: None, hsdc: None, misc: None, engage: None, sweep: None, channels: Seq::empty() }
}

/// One remaining section: an optional section is kept, a channel section becomes a
/// channel (or fails with its index), any other section is dropped.
pub open spec fn assemble_step(a: Assembly, item: (SectionModel, Entries), buffer: Seq<u8>) -> Result<
    Assembly,
    LoadErrorModel,
> {
    match item.0 {
        SectionModel::EquipmentMetadata => Ok(Assembly { equipment: Some(item.1), ..a }),
        SectionModel::HSDCMetadata => Ok(Assembly { hsdc: Some(item.1), ..a }),
        SectionModel::MiscMetadata => Ok(Assembly { misc: Some(item.1), ..a }),
        SectionModel::EngageMetadata => Ok(Assembly { engage: Some(item.1), ..a }),
        SectionModel::SweepMetadata => Ok(Assembly { sweep: Some(item.1), ..a }),
        SectionModel::Channels(i) => match channel_spec(item.1, buffer) {
            Ok(c) => Ok(Assembly { channels: a.channels.push(c), ..a }),
            Err(e) => Err(LoadErrorModel::Channel { index: i, error: e }),
        },
        _ => Ok(a),
    }
}

/// The remaining sections, in order.
pub open spec fn assemble(rest: Seq<(SectionModel, Entries)>, buffer: Seq<u8>) -> Result<
    Assembly,
    LoadErrorModel,
>
    decreases rest.len(),
{
    if rest.len() == 0 {
        Ok(empty_assembly())
    } else {
        match assemble(rest.drop_last(), buffer) {
            Ok(a) => assemble_step(a, rest.last(), buffer),
            Err(e) => Err(e),
        }
    }
}

/// A loaded file.
pub struct FileModel {
    pub file_path: Seq<char>,
    pub file_metadata: Entries,
    pub scanner_metadata: Entries,
    pub equipment_metadata: Option<Entries>,
    pub hdsc_metadata: Option<Entries>,
    pub misc_metadata: Option<Entries>,
    pub engage_metadata: Option<Entries>,
    pub sweep_metadata: Option<Entries>,
    pub channels: Seq<ChannelModel>,
    pub scan: ScanLinesModel,
}

/// What loading gives for a file at `path` holding `buffer`: the header is read; the
/// file and scanner sections must be there; the other sections are collected in order;
/// then the scan lines are cut.
pub open spec fn load_spec(path: Seq<char>, buffer: Seq<u8>) -> Result<FileModel, LoadErrorModel> {
    match parse_header_spec(buffer) {
        Err(e) => Err(e),
        Ok(secs) => match remove_section(secs, SectionModel::FileMetadata) {
            None => Err(LoadErrorModel::MissingSection(SectionModel::FileMetadata)),
            Some((fm, secs1)) => match remove_section(secs1, SectionModel::ScannerMetadata) {
                None => Err(LoadErrorModel::MissingSection(SectionModel::ScannerMetadata)),
                Some((sm, rest)) => load_from_sections(path, fm, sm, rest, buffer),
            },
        },
    }
}

/// The rest of loading, once the file section `fm` and the scanner section `sm` are
/// taken out of the header and `rest` remains.
pub open spec fn load_from_sections(
    path: Seq<char>,
    fm: Entries,
    sm: Entries,
    rest: Seq<(SectionModel, Entries)>,
    buffer: Seq<u8>,
) -> Result<FileModel, LoadErrorModel> {
    match assemble(rest, buffer) {
        Err(e) => Err(e),
        Ok(a) => match scan_spec(sm, a.channels) {
            Err(e) => Err(LoadErrorModel::Scan(e)),
            Ok(scan) => Ok(
                FileModel {
                    file_path: path,
                    file_metadata: fm,
                    scanner_metadata: sm,
                    equipment_metadata: a.equipment,
                    hdsc_metadata: a.hsdc,
                    misc_metadata: a.misc,
                    engage_metadata: a.engage,
                    sweep_metadata: a.sweep,
                    channels: a.channels,
                    scan,
                },
            ),
        },
    }
}

pub open spec fn opt_entries(m: Option<Metadata>) -> Option<Entries> {
    match m {
        Some(t) => Some(t@),
        None => None,
    }
}

/// A Nanoscope file: its header sections, its channels and its scan lines.
#[derive(Debug)]
pub struct NanoscopeFile {
    pub file_path: String,
    pub file_metadata: Metadata,
    pub scanner_metadata: Metadata,
    pub equipment_metadata: Option<Metadata>,
    pub hdsc_metadata: Option<Metadata>,
    pub misc_metadata: Option<Metadata>,
    pub engage_metadata: Option<Metadata>,
    pub sweep_metadata: Option<Metadata>,
    pub channels: Vec<Channel>,
    pub scan: ScanLines,
}

impl View for NanoscopeFile {
    type V = FileModel;

    open spec fn view(&self) -> FileModel {
        FileModel {
            file_path: self.file_path@,
            file_metadata: self.file_metadata@,
            scanner_metadata: self.scanner_metadata@,
            equipment_metadata: opt_entries(self.equipment_metadata),
            hdsc_metadata: opt_entries(self.hdsc_metadata),
            misc_metadata: opt_entries(self.misc_metadata),
            engage_metadata: opt_entries(self.engage_metadata),
            sweep_metadata: opt_entries(self.sweep_metadata),
            channels: self.channels@.map_values(|c: Channel| c@),
            scan: self.scan@,
        }
    }
}

impl Header {
    /// The map key of `section`, if the header can hold it.
    fn key_of(&self, section: &HeaderSection) -> (r: Option<(u64, u64)>)
        ensures
            match r {
                Some(k) => key_valid(k, name_seq(self.names@)) && decode_key(k, name_seq(self.names@))
                    == section@,
                None => forall|k: (u64, u64)|
                    key_valid(k, name_seq(self.names@)) ==> decode_key(k, name_seq(self.names@))
                        != section@,
            },
    {
        match section {
            HeaderSection::FileMetadata => Some((0, 0)),
            HeaderSection::ScannerMetadata => Some((1, 0)),
            HeaderSection::EquipmentMetadata => Some((2, 0)),
            HeaderSection::HSDCMetadata => Some((3, 0)),
            HeaderSection::MiscMetadata => Some((4, 0)),
            HeaderSection::EngageMetadata => Some((5, 0)),
            HeaderSection::SweepMetadata => Some((6, 0)),
            HeaderSection::Channels(i) => Some((7, *i as u64)),
            HeaderSection::Other(name) => match find_name(&self.names, name) {
                Some(j) => Some((8, j as u64)),
                None => {
                    assert forall|k: (u64, u64)| key_valid(k, name_seq(self.names@)) implies decode_key(
                        k,
                        name_seq(self.names@),
                    ) != section@ by {
                        if k.0 == 8 {
                            assert(self.names@[k.1 as int]@ != name@);
                        }
                    }
                    None
                },
            },
        }
    }

    /// Takes `section` out of the header, or fails when the header does not hold it.
    fn get_section_and_consume(&mut self, section: HeaderSection) -> (r: Result<Metadata, LoadError>)
        requires
            old(self).wf(),
        ensures
            final(self).wf(),
            final(self).names@ == old(self).names@,
            match remove_section(old(self).model(), section@) {
                Some((t, rest)) => r matches Ok(m) && m@ == t && final(self).model() == rest,
                None => r matches Err(e) && e@ == LoadErrorModel::MissingSection(section@)
                    && final(self).model() == old(self).model(),
            },
    {
        let ghost m = self.model();
        let ghost e = self.entries();
        let ghost names = name_seq(self.names@);
        let key = match self.key_of(&section) {
            Some(k) => k,
            None => {
                proof {
                    lemma_section_position(m, section@);
                    if let Some(p) = section_position(m, section@) {
                        assert(key_valid(e[p].0, names));
                    }
                }
                return Err(LoadError::MissingSection(section));
            },
        };
        proof {
            self.lemma_position(key);
            lemma_key_position(e, key);
        }
        match section_map_remove(&mut self.sections, key) {
            Some(idx) => {
                let ghost p = key_position(e, key)->0;
                let mut table = Metadata::new();
                self.tables.set_and_swap(idx, &mut table);
                proof {
                    let e2 = self.entries();
                    assert(e2 == e.remove(p));
                    assert forall|i: int| 0 <= i < e2.len() implies (#[trigger] e2[i]).1 != idx by {
                        if i < p {
                            assert(e[i].1 != e[p].1);
                        } else {
                            assert(e[i + 1].1 != e[p].1);
                        }
                    }
                    assert forall|i: int| 0 <= i < e2.len() implies key_valid((#[trigger] e2[i]).0, names) by {
                        if i >= p {
                            assert(e2[i] == e[i + 1]);
                        }
                    }
                    assert forall|i: int, j: int| 0 <= i < j < e2.len() implies e2[i].1 != e2[j].1 by {
                        if i >= p {
                            assert(e[i + 1].1 != e[j + 1].1);
                        } else if j >= p {
                            assert(e[i].1 != e[j + 1].1);
                        }
                    }
                    assert(self.model() =~= m.remove(p));
                }
                Ok(table)
            },
            None => Err(LoadError::MissingSection(section)),
        }
    }
}


/// Once a remaining section fails, assembling fails with that error.
proof fn lemma_assemble_err(rest: Seq<(SectionModel, Entries)>, buffer: Seq<u8>, k: int, m: int)
    requires
        0 <= k <= m <= rest.len(),
        assemble(rest.take(k), buffer) is Err,
    ensures
        assemble(rest.take(m), buffer) == assemble(rest.take(k), buffer),
    decreases m - k,
{
    if m > k {
        lemma_assemble_err(rest, buffer, k, m - 1);
        assert(rest.take(m).drop_last() =~= rest.take(m - 1));
    }
}

impl NanoscopeFile {
    /// Reads a file held in `buffer`: its header, its file and scanner sections (both
    /// required), its optional sections, its channels in header order, and its scan lines.
    pub fn from_buffer(file_path: &str, buffer: &[u8]) -> (r: Result<NanoscopeFile, LoadError>)
        ensures
            match load_spec(file_path@, buffer@) {
                Ok(f) => r matches Ok(v) && v@ == f,
                Err(e) => r matches Err(err) && err@ == e,
            },
    {
        let mut header = parse_header(buffer)?;
        let file_metadata = header.get_section_and_consume(HeaderSection::FileMetadata)?;
        let scanner_metadata = header.get_section_and_consume(HeaderSection::ScannerMetadata)?;
        let ghost rest = header.model();
        assert(load_spec(file_path@, buffer@) == load_from_sections(
            file_path@,
            file_metadata@,
            scanner_metadata@,
            rest,
            buffer@,
        ));
        let ghost names = name_seq(header.names@);
        let ghost orig = header.tables@;
        let drained = section_map_drain(&mut header.sections);
        let ghost e = drained@;
        assert(rest =~= Seq::new(e.len(), |i: int| (decode_key(e[i].0, names), orig[e[i].1 as int]@)));
        let mut equipment_metadata: Option<Metadata> = None;
        let mut hdsc_metadata: Option<Metadata> = None;
        let mut misc_metadata: Option<Metadata> = None;
        let mut engage_metadata: Option<Metadata> = None;
        let mut sweep_metadata: Option<Metadata> = None;
        let mut channels: Vec<Channel> = Vec::new();
        let n = drained.len();
        let mut j: usize = 0;
        assert(rest.take(0) =~= Seq::<(SectionModel, Entries)>::empty());
        assert(channels@.map_values(|c: Channel| c@) =~= Seq::<ChannelModel>::empty());
        while j < n
            invariant
                load_spec(file_path@, buffer@) == load_from_sections(
                    file_path@,
                    file_metadata@,
                    scanner_metadata@,
                    rest,
                    buffer@,
                ),
                n == e.len(),
                e == drained@,
                rest == Seq::new(e.len(), |i: int| (decode_key(e[i].0, names), orig[e[i].1 as int]@)),
                header.tables@.len() == orig.len(),
                forall|i: int| 0 <= i < n ==> key_valid((#[trigger] e[i]).0, names),
                forall|i: int| 0 <= i < n ==> (#[trigger] e[i]).1 < orig.len(),
                forall|a: int, b: int| 0 <= a < b < n ==> e[a].1 != e[b].1,
                forall|i: int| j <= i < n ==> header.tables@[(#[trigger] e[i]).1 as int] == orig[e[i].1 as int],
                j <= n,
                assemble(rest.take(j as int), buffer@) == Ok::<Assembly, LoadErrorModel>(
                    Assembly {
                        equipment: opt_entries(equipment_metadata),
                        hsdc: opt_entries(hdsc_metadata),
                        misc: opt_entries(misc_metadata),
                        engage: opt_entries(engage_metadata),
                        sweep: opt_entries(sweep_metadata),
                        channels: channels@.map_values(|c: Channel| c@),
                    },
                ),
            decreases n - j,
        {
            let (k, idx) = drained[j];
            let mut table = Metadata::new();
            header.tables.set_and_swap(idx, &mut table);
            proof {
                assert(table == orig[idx as int]);
                assert(rest.take(j + 1).drop_last() =~= rest.take(j as int));
                assert(rest.take(j + 1).last() == (decode_key(k, names), table@));
                assert forall|i: int| j + 1 <= i < n implies header.tables@[(#[trigger] e[i]).1 as int]
                    == orig[e[i].1 as int] by {
                    assert(e[i].1 != e[j as int].1);
                }
            }
            if k.0 == 2 {
                equipment_metadata = Some(table);
            } else if k.0 == 3 {
                hdsc_metadata = Some(table);
            } else if k.0 == 4 {
                misc_metadata = Some(table);
            } else if k.0 == 5 {
                engage_metadata = Some(table);
            } else if k.0 == 6 {
                sweep_metadata = Some(table);
            } else if k.0 == 7 {
                match Channel::from_metadata(table, buffer) {
                    Ok(c) => {
                        let ghost before = channels@.map_values(|c: Channel| c@);
                        channels.push(c);
                        assert(channels@.map_values(|c: Channel| c@) =~= before.push(c@));
                    },
                    Err(err) => {
                        proof {
                            lemma_assemble_err(rest, buffer@, j + 1, n as int);
                            assert(rest.take(n as int) =~= rest);
                        }
                        return Err(LoadError::Channel { index: k.1 as usize, error: err });
                    },
                }
            }
            j = j + 1;
        }
        assert(rest.take(n as int) =~= rest);
        let scan = match get_scan_lines(&scanner_metadata, &channels) {
            Ok(s) => s,
            Err(err) => return Err(LoadError::Scan(err)),
        };
        Ok(
            NanoscopeFile {
                file_path: file_path.to_owned(),
                file_metadata,
                scanner_metadata,
                equipment_metadata,
                hdsc_metadata,
                misc_metadata,
                engage_metadata,
                sweep_metadata,
                channels,
                scan,
            },
        )
    }
}

} // verus!

verus! {

/// Every scan line has as many x samples as height samples.
pub proof fn law_scan_line_parts_match(x: ChannelModel, h: ChannelModel, off: int)
    ensures
        segment_lines(x, h, off) matches Ok(ls) ==> forall|k: int|
            0 <= k < ls.len() ==> (#[trigger] ls[k]).0.len() == ls[k].1.len(),
    decreases min_len(h.data.len() as int, x.data.len() as int) + 1 - off,
{
    if 0 <= off < min_len(h.data.len() as int, x.data.len() as int) {
        let start = off + 1;
        let end = line_end(off, x.data[off]);
        if start <= end <= h.data.len() && start <= end <= x.data.len() {
            law_scan_line_parts_match(x, h, end + 1);
            if let Ok(ls) = segment_lines(x, h, off) {
                let rest = segment_lines(x, h, end + 1)->Ok_0;
                assert forall|k: int| 0 <= k < ls.len() implies (#[trigger] ls[k]).0.len() == ls[k].1.len() by {
                    if k > 0 {
                        assert(ls[k] == rest[k - 1]);
                    }
                }
            }
        }
    }
}

/// Where line `j` starts when the first line starts at `off`: each line starts right
/// after the samples of the line before, so that `o(j + 1) = o(j) + x[o(j)] + 1` (in the
/// arithmetic of `usize`).
pub open spec fn line_start(x: Seq<i16>, off: int, j: nat) -> int
    decreases j,
{
    if j == 0 {
        off
    } else {
        line_start(x, line_end(off, x[off]) + 1, (j - 1) as nat)
    }
}

/// Whether a line can be read at `o`: it starts inside both channels, its length word is
/// at least 1, and its samples `o + 1 .. o + x[o]` lie inside both channels.
pub open spec fn line_fits(x: ChannelModel, h: ChannelModel, o: int) -> bool {
    let n = min_len(h.data.len() as int, x.data.len() as int);
    &&& 0 <= o < n
    &&& 1 <= x.data[o]
    &&& o + x.data[o] <= n
}

/// The line read at `o`: samples `o + 1 .. o + x[o]` of the y scan and of the height.
pub open spec fn line_at(x: ChannelModel, h: ChannelModel, o: int) -> (Seq<i16>, Seq<i16>) {
    (x.data.subrange(o + 1, o + x.data[o]), h.data.subrange(o + 1, o + x.data[o]))
}

/// The scan lines in closed form: when the lines starting at `o(0) = off`, ..., `o(count - 1)`
/// all fit and `o(count)` lies past the shorter channel, the scan lines are exactly these
/// `count` lines, line `j` being samples `o(j) + 1 .. o(j) + x[o(j)]` of both channels.
pub proof fn law_scan_lines_closed_form(x: ChannelModel, h: ChannelModel, off: int, count: nat)
    requires
        x.data.len() <= usize::MAX,
        h.data.len() <= usize::MAX,
        forall|j: nat| j < count ==> line_fits(x, h, #[trigger] line_start(x.data, off, j)),
        line_start(x.data, off, count) >= min_len(h.data.len() as int, x.data.len() as int),
    ensures
        segment_lines(x, h, off) == Ok::<Seq<(Seq<i16>, Seq<i16>)>, ChannelErrorModel>(
            Seq::new(count, |j: int| line_at(x, h, line_start(x.data, off, j as nat))),
        ),
    decreases count,
{
    let lines = Seq::new(count, |j: int| line_at(x, h, line_start(x.data, off, j as nat)));
    if count == 0 {
        assert(lines =~= Seq::<(Seq<i16>, Seq<i16>)>::empty());
    } else {
        assert(line_fits(x, h, line_start(x.data, off, 0)));
        let end = line_end(off, x.data[off]);
        assert(end == off + x.data[off]);
        let next = end + 1;
        assert forall|j: nat| j < (count - 1) as nat implies line_fits(
            x,
            h,
            #[trigger] line_start(x.data, next, j),
        ) by {
            assert(line_start(x.data, off, j + 1) == line_start(x.data, next, j));
            assert(line_fits(x, h, line_start(x.data, off, j + 1)));
        }
        assert(line_start(x.data, off, count) == line_start(x.data, next, (count - 1) as nat));
        law_scan_lines_closed_form(x, h, next, (count - 1) as nat);
        let rest = Seq::new(
            (count - 1) as nat,
            |j: int| line_at(x, h, line_start(x.data, next, j as nat)),
        );
        assert forall|j: int| 0 <= j < count - 1 implies #[trigger] rest[j] == lines[j + 1] by {
            assert(line_start(x.data, off, (j + 1) as nat) == line_start(x.data, next, j as nat));
        }
        assert(lines =~= seq![line_at(x, h, off)] + rest);
    }
}

/// A line that does not fit ends the reading in an error: when the lines at `o(0) = off`,
/// ..., `o(count - 1)` fit and the one at `o(count)` starts inside both channels but does
/// not fit, the scan lines are refused.  The channels are no longer than a `Vec` can be.
pub proof fn law_scan_lines_refuse_a_bad_line(x: ChannelModel, h: ChannelModel, off: int, count: nat)
    requires
        x.data.len() <= isize::MAX,
        h.data.len() <= isize::MAX,
        forall|j: nat| j < count ==> line_fits(x, h, #[trigger] line_start(x.data, off, j)),
        0 <= line_start(x.data, off, count) < min_len(h.data.len() as int, x.data.len() as int),
        !line_fits(x, h, line_start(x.data, off, count)),
    ensures
        segment_lines(x, h, off) is Err,
    decreases count,
{
    if count > 0 {
        assert(line_fits(x, h, line_start(x.data, off, 0)));
        let end = line_end(off, x.data[off]);
        let next = end + 1;
        assert forall|j: nat| j < (count - 1) as nat implies line_fits(
            x,
            h,
            #[trigger] line_start(x.data, next, j),
        ) by {
            assert(line_start(x.data, off, j + 1) == line_start(x.data, next, j));
            assert(line_fits(x, h, line_start(x.data, off, j + 1)));
        }
        assert(line_start(x.data, off, count) == line_start(x.data, next, (count - 1) as nat));
        law_scan_lines_refuse_a_bad_line(x, h, next, (count - 1) as nat);
    } else {
        let len = x.data[off];
        let end = line_end(off, len);
        assert(-32768 <= len <= 32767);
        if off + len > usize::MAX {
            assert(end < off + 1);
        } else if off + len < 0 {
            assert(end > isize::MAX);
        } else {
            assert(end == off + len);
        }
    }
}

/// Every section that the header parser reads holds each key once: a key that occurs
/// on several data lines of a section keeps the value of the last one.
pub proof fn law_header_sections_hold_each_key_once(lines: Seq<Seq<char>>)
    ensures
        header_run(lines) matches Ok(st) ==> forall|k: int|
            0 <= k < st.sections.len() ==> keys_distinct(#[trigger] st.sections[k].1),
    decreases lines.len(),
{
    if lines.len() > 0 {
        law_header_sections_hold_each_key_once(lines.drop_last());
        if let Ok(prev) = header_run(lines.drop_last()) {
            let line = lines.last();
            if !(line.len() > 0 && line[0] == section_prefix()) {
                if let Some(s) = prev.current {
                    match section_position(prev.sections, s) {
                        Some(i) => {
                            lemma_section_position(prev.sections, s);
                            crate::metadata::lemma_insert_line_keeps_keys_distinct(
                                prev.sections[i].1,
                                line,
                            );
                        },
                        None => {
                            crate::metadata::lemma_insert_line_keeps_keys_distinct(Seq::empty(), line);
                        },
                    }
                }
            }
        }
    }
}

/// Whether every section of `secs` holds each key once.
pub open spec fn sections_keys_distinct(secs: Seq<(SectionModel, Entries)>) -> bool {
    forall|k: int| 0 <= k < secs.len() ==> keys_distinct(#[trigger] secs[k].1)
}

/// Whether an optional section holds each key once.
pub open spec fn option_keys_distinct(e: Option<Entries>) -> bool {
    e matches Some(t) ==> keys_distinct(t)
}

proof fn lemma_assemble_keys_distinct(rest: Seq<(SectionModel, Entries)>, buffer: Seq<u8>)
    requires
        sections_keys_distinct(rest),
    ensures
        assemble(rest, buffer) matches Ok(a) ==> {
            &&& option_keys_distinct(a.equipment)
            &&& option_keys_distinct(a.hsdc)
            &&& option_keys_distinct(a.misc)
            &&& option_keys_distinct(a.engage)
            &&& option_keys_distinct(a.sweep)
            &&& forall|k: int| 0 <= k < a.channels.len() ==> keys_distinct(#[trigger] a.channels[k].metadata)
        },
    decreases rest.len(),
{
    if rest.len() > 0 {
        assert(sections_keys_distinct(rest.drop_last())) by {
            assert forall|k: int| 0 <= k < rest.drop_last().len() implies keys_distinct(
                #[trigger] rest.drop_last()[k].1,
            ) by {
                assert(rest.drop_last()[k] == rest[k]);
            }
        }
        lemma_assemble_keys_distinct(rest.drop_last(), buffer);
        assert(keys_distinct(rest[rest.len() - 1].1));
        if let Ok(a) = assemble(rest.drop_last(), buffer) {
            if let Ok(b) = assemble_step(a, rest.last(), buffer) {
                assert forall|k: int| 0 <= k < b.channels.len() implies keys_distinct(
                    #[trigger] b.channels[k].metadata,
                ) by {
                    if k < a.channels.len() {
                        assert(b.channels[k] == a.channels[k]);
                    }
                }
            }
        }
    }
}

/// Every table of a loaded file holds each key once: the file and scanner sections, the
/// optional sections and each channel's section.
pub proof fn law_loaded_tables_hold_each_key_once(path: Seq<char>, buffer: Seq<u8>)
    ensures
        load_spec(path, buffer) matches Ok(f) ==> {
            &&& keys_distinct(f.file_metadata)
            &&& keys_distinct(f.scanner_metadata)
            &&& option_keys_distinct(f.equipment_metadata)
            &&& option_keys_distinct(f.hdsc_metadata)
            &&& option_keys_distinct(f.misc_metadata)
            &&& option_keys_distinct(f.engage_metadata)
            &&& option_keys_distinct(f.sweep_metadata)
            &&& forall|k: int| 0 <= k < f.channels.len() ==> keys_distinct(#[trigger] f.channels[k].metadata)
        },
{
    if let Ok(secs) = parse_header_spec(buffer) {
        law_header_sections_hold_each_key_once(valid_header_lines(buffer_lines(buffer)));
        assert(sections_keys_distinct(secs));
        if let Some((fm, secs1)) = remove_section(secs, SectionModel::FileMetadata) {
            let p = section_position(secs, SectionModel::FileMetadata)->0;
            lemma_section_position(secs, SectionModel::FileMetadata);
            assert(sections_keys_distinct(secs1)) by {
                assert forall|k: int| 0 <= k < secs1.len() implies keys_distinct(#[trigger] secs1[k].1) by {
                    if k < p {
                        assert(secs1[k] == secs[k]);
                    } else {
                        assert(secs1[k] == secs[k + 1]);
                    }
                }
            }
            if let Some((sm, rest)) = remove_section(secs1, SectionModel::ScannerMetadata) {
                let q = section_position(secs1, SectionModel::ScannerMetadata)->0;
                lemma_section_position(secs1, SectionModel::ScannerMetadata);
                assert(sections_keys_distinct(rest)) by {
                    assert forall|k: int| 0 <= k < rest.len() implies keys_distinct(#[trigger] rest[k].1) by {
                        if k < q {
                            assert(rest[k] == secs1[k]);
                        } else {
                            assert(rest[k] == secs1[k + 1]);
                        }
                    }
                }
                lemma_assemble_keys_distinct(rest, buffer);
            }
        }
    }
}

/// Each scale of the scan comes from its own channel and key: the height scales from
/// the scanner's `@sens. zsensor` (nm/V) and channel 0's `@2:z scale zsensor` (V/LSB) and
/// `z lsb scale`; the x scales from the scanner's `@sens. ypiezo` (nm/V) and channel 1's
/// `@2:z scale y scan` (V/LSB) and `z lsb scale`; the lines are cut from channel 1 (the
/// y scan, whose samples lead each line with its length) and channel 0 (the height).
pub proof fn law_scan_scales_come_from_their_channels(scanner: Entries, channels: Seq<ChannelModel>)
    ensures
        scan_spec(scanner, channels) matches Ok(s) ==> {
            &&& channels.len() >= 2
            &&& get_float_spec(scanner, "@sens. zsensor"@, Some(NM_PER_V_PATTERN@)) == Ok::<
                FloatSourceModel,
                MetadataErrorModel,
            >(s.scales.height_nm_per_v)
            &&& get_float_spec(channels[0].metadata, "@2:z scale zsensor"@, Some(V_PER_LSB_PATTERN@))
                == Ok::<FloatSourceModel, MetadataErrorModel>(s.scales.height_v_per_lsb)
            &&& get_float_spec(channels[0].metadata, "z lsb scale"@, None) == Ok::<
                FloatSourceModel,
                MetadataErrorModel,
            >(s.scales.height_lsb_scale)
            &&& get_float_spec(scanner, "@sens. ypiezo"@, Some(NM_PER_V_PATTERN@)) == Ok::<
                FloatSourceModel,
                MetadataErrorModel,
            >(s.scales.x_nm_per_v)
            &&& get_float_spec(channels[1].metadata, "@2:z scale y scan"@, Some(V_PER_LSB_PATTERN@))
                == Ok::<FloatSourceModel, MetadataErrorModel>(s.scales.x_v_per_lsb)
            &&& get_float_spec(channels[1].metadata, "z lsb scale"@, None) == Ok::<
                FloatSourceModel,
                MetadataErrorModel,
            >(s.scales.x_lsb_scale)
            &&& segment_lines(channels[1], channels[0], 0) == Ok::<
                Seq<(Seq<i16>, Seq<i16>)>,
                ChannelErrorModel,
            >(s.lines)
        },
{
}

/// Whether `name` is one of the section names that the header knows.
pub open spec fn is_known_section_name(name: Seq<char>) -> bool {
    name == "file list"@ || name == "scanner list"@ || name == "ciao scan list"@ || name
        == "equipment list"@ || name == "hsdc list"@ || name == "misc. data list"@ || name
        == "engage list"@ || name == "sweep list"@ || name == "ciao image list"@
}

/// A section line (one that starts with `*`) opens the section it names, compared after
/// ASCII lowercasing: `file list` the file section, `scanner list` and `ciao scan list`
/// the scanner section, `equipment list`, `hsdc list`, `misc. data list`, `engage list`
/// and `sweep list` their sections, `ciao image list` the next channel section, and any
/// other name a section of its own under that name.  A section line adds no entry, and
/// the channel count moves on when the section it closes is a channel section.
pub proof fn law_section_line_opens_named_section(st: HeaderState, line: Seq<char>)
    requires
        line.len() > 0,
        line[0] == '*',
    ensures
        header_step(st, line) matches Ok(n) && {
            let name = ascii_lower(line.drop_first());
            let idx = if st.current matches Some(SectionModel::Channels(_)) {
                st.channel_idx + 1
            } else {
                st.channel_idx
            };
            &&& n.sections == st.sections
            &&& n.channel_idx == idx
            &&& name == "file list"@ ==> n.current == Some(SectionModel::FileMetadata)
            &&& name == "scanner list"@ ==> n.current == Some(SectionModel::ScannerMetadata)
            &&& name == "ciao scan list"@ ==> n.current == Some(SectionModel::ScannerMetadata)
            &&& name == "equipment list"@ ==> n.current == Some(SectionModel::EquipmentMetadata)
            &&& name == "hsdc list"@ ==> n.current == Some(SectionModel::HSDCMetadata)
            &&& name == "misc. data list"@ ==> n.current == Some(SectionModel::MiscMetadata)
            &&& name == "engage list"@ ==> n.current == Some(SectionModel::EngageMetadata)
            &&& name == "sweep list"@ ==> n.current == Some(SectionModel::SweepMetadata)
            &&& name == "ciao image list"@ ==> n.current == Some(SectionModel::Channels(idx))
            &&& !is_known_section_name(name) ==> n.current == Some(SectionModel::Other(name))
        },
{
    reveal_strlit("file list");
    reveal_strlit("scanner list");
    reveal_strlit("ciao scan list");
    reveal_strlit("equipment list");
    reveal_strlit("hsdc list");
    reveal_strlit("misc. data list");
    reveal_strlit("engage list");
    reveal_strlit("sweep list");
    reveal_strlit("ciao image list");
    assert("file list"@.len() == 9 && "file list"@[0] == 'f');
    assert("scanner list"@.len() == 12 && "scanner list"@[0] == 's');
    assert("ciao scan list"@.len() == 14 && "ciao scan list"@[0] == 'c');
    assert("equipment list"@.len() == 14 && "equipment list"@[0] == 'e');
    assert("hsdc list"@.len() == 9 && "hsdc list"@[0] == 'h');
    assert("misc. data list"@.len() == 15 && "misc. data list"@[0] == 'm');
    assert("engage list"@.len() == 11 && "engage list"@[0] == 'e');
    assert("sweep list"@.len() == 10 && "sweep list"@[0] == 's');
    assert("ciao image list"@.len() == 15 && "ciao image list"@[0] == 'c');
    assert(FILE_LIST@ == "file list"@);
    assert(SCANNER_LIST@ == "scanner list"@);
    assert(CIAO_SCAN_LIST@ == "ciao scan list"@);
    assert(EQUIPMENT_LIST@ == "equipment list"@);
    assert(HSDC_LIST@ == "hsdc list"@);
    assert(MISC_DATA_LIST@ == "misc. data list"@);
    assert(ENGAGE_LIST@ == "engage list"@);
    assert(SWEEP_LIST@ == "sweep list"@);
    assert(CIAO_IMAGE_LIST@ == "ciao image list"@);
}

/// A data line (one that does not start with `*`) goes to the section opened by the last
/// section line, and to no other: before any section line it is skipped; else, when it
/// holds `": "`, that section (created when new) afterwards holds the value read from
/// the line under the lowercased key, every other section keeps its entries, and no
/// other section is created.
pub proof fn law_data_line_goes_to_current_section(st: HeaderState, line: Seq<char>)
    requires
        !(line.len() > 0 && line[0] == '*'),
    ensures
        st.current is None ==> header_step(st, line) == Ok::<HeaderState, MetadataErrorModel>(st),
        st.current matches Some(s) ==> (delimiter_index(line) matches Some(i) ==> header_step(
            st,
            line,
        ) matches Ok(n) && {
            &&& n.current == st.current
            &&& n.channel_idx == st.channel_idx
            &&& exists|p: int|
                0 <= p < n.sections.len() && n.sections[p].0 == s && lookup(
                    n.sections[p].1,
                    unicode_lowercase(line.subrange(0, i)),
                ) == Some(parse_value_spec(line.subrange(i + 2, line.len() as int)))
            &&& forall|q: int|
                0 <= q < n.sections.len() && (#[trigger] n.sections[q]).0 != s ==> q < st.sections.len()
                    && n.sections[q] == st.sections[q]
        }),
{
    if let Some(s) = st.current {
        if let Some(i) = delimiter_index(line) {
            let sections = st.sections;
            let key = unicode_lowercase(line.subrange(0, i));
            let value = parse_value_spec(line.subrange(i + 2, line.len() as int));
            lemma_section_position(sections, s);
            match section_position(sections, s) {
                Some(p) => {
                    crate::metadata::law_insert_line_then_lookup(sections[p].1, line, key);
                    let n = add_section_line(sections, s, line)->Ok_0;
                    assert(n[p].0 == s);
                },
                None => {
                    crate::metadata::law_insert_line_then_lookup(Seq::empty(), line, key);
                    let n = add_section_line(sections, s, line)->Ok_0;
                    assert(n[sections.len() as int].0 == s);
                },
            }
        }
    }
}

/// Whether no section occurs twice in `secs`.
pub open spec fn section_kinds_distinct(secs: Seq<(SectionModel, Entries)>) -> bool {
    forall|i: int, j: int| 0 <= i < j < secs.len() ==> secs[i].0 != secs[j].0
}

/// The entries of section `s` in `secs`, if `secs` holds it.
pub open spec fn section_of(secs: Seq<(SectionModel, Entries)>, s: SectionModel) -> Option<Entries> {
    match section_position(secs, s) {
        Some(p) => Some(secs[p].1),
        None => None,
    }
}

/// The header parser never holds a section twice.
proof fn lemma_header_sections_distinct(lines: Seq<Seq<char>>)
    ensures
        header_run(lines) matches Ok(st) ==> section_kinds_distinct(st.sections),
    decreases lines.len(),
{
    if lines.len() > 0 {
        lemma_header_sections_distinct(lines.drop_last());
        if let Ok(prev) = header_run(lines.drop_last()) {
            let line = lines.last();
            if !(line.len() > 0 && line[0] == section_prefix()) {
                if let Some(s) = prev.current {
                    lemma_section_position(prev.sections, s);
                    if let Ok(n) = add_section_line(prev.sections, s, line) {
                        assert(section_kinds_distinct(n));
                    }
                }
            }
        }
    }
}

proof fn lemma_section_of_remove(secs: Seq<(SectionModel, Entries)>, p: int, s: SectionModel)
    requires
        0 <= p < secs.len(),
        secs[p].0 != s,
    ensures
        section_of(secs.remove(p), s) == section_of(secs, s),
        section_kinds_distinct(secs) ==> section_kinds_distinct(secs.remove(p)),
{
    let r = secs.remove(p);
    lemma_section_position(secs, s);
    lemma_section_position(r, s);
    match section_position(secs, s) {
        Some(q) => {
            if q < p {
                assert(r[q] == secs[q]);
                lemma_section_position_unique(r, s, q);
            } else {
                assert(r[q - 1] == secs[q]);
                assert forall|j: int| 0 <= j < q - 1 implies r[j].0 != s by {
                    if j >= p {
                        assert(r[j] == secs[j + 1]);
                    }
                }
                lemma_section_position_unique(r, s, q - 1);
            }
        },
        None => {
            if let Some(q) = section_position(r, s) {
                if q < p {
                    assert(r[q] == secs[q]);
                } else {
                    assert(r[q] == secs[q + 1]);
                }
            }
        },
    }
    if section_kinds_distinct(secs) {
        assert forall|i: int, j: int| 0 <= i < j < r.len() implies r[i].0 != r[j].0 by {
            let a = if i < p { i } else { i + 1 };
            let b = if j < p { j } else { j + 1 };
            assert(r[i] == secs[a] && r[j] == secs[b]);
        }
    }
}

proof fn lemma_section_of_push(init: Seq<(SectionModel, Entries)>, x: (SectionModel, Entries), s: SectionModel)
    requires
        section_kinds_distinct(init.push(x)),
    ensures
        section_of(init.push(x), s) == if x.0 == s {
            Some(x.1)
        } else {
            section_of(init, s)
        },
        section_kinds_distinct(init),
{
    let all = init.push(x);
    lemma_section_position(init, s);
    lemma_section_position(all, s);
    if x.0 == s {
        assert forall|j: int| 0 <= j < init.len() implies all[j].0 != s by {
            assert(all[init.len() as int] == x);
        }
        lemma_section_position_unique(all, s, init.len() as int);
    } else {
        match section_position(init, s) {
            Some(q) => {
                assert(all[q] == init[q]);
                lemma_section_position_unique(all, s, q);
            },
            None => {
                if let Some(q) = section_position(all, s) {
                    if q < init.len() {
                        assert(all[q] == init[q]);
                    }
                }
            },
        }
    }
    assert forall|i: int, j: int| 0 <= i < j < init.len() implies init[i].0 != init[j].0 by {
        assert(all[i] == init[i] && all[j] == init[j]);
    }
}

proof fn lemma_assemble_optional_sections(rest: Seq<(SectionModel, Entries)>, buffer: Seq<u8>)
    requires
        section_kinds_distinct(rest),
    ensures
        assemble(rest, buffer) matches Ok(a) ==> {
            &&& a.equipment == section_of(rest, SectionModel::EquipmentMetadata)
            &&& a.hsdc == section_of(rest, SectionModel::HSDCMetadata)
            &&& a.misc == section_of(rest, SectionModel::MiscMetadata)
            &&& a.engage == section_of(rest, SectionModel::EngageMetadata)
            &&& a.sweep == section_of(rest, SectionModel::SweepMetadata)
        },
    decreases rest.len(),
{
    if rest.len() == 0 {
        lemma_section_position(rest, SectionModel::EquipmentMetadata);
        lemma_section_position(rest, SectionModel::HSDCMetadata);
        lemma_section_position(rest, SectionModel::MiscMetadata);
        lemma_section_position(rest, SectionModel::EngageMetadata);
        lemma_section_position(rest, SectionModel::SweepMetadata);
    } else {
        let init = rest.drop_last();
        let x = rest.last();
        assert(init.push(x) =~= rest);
        lemma_section_of_push(init, x, SectionModel::EquipmentMetadata);
        lemma_section_of_push(init, x, SectionModel::HSDCMetadata);
        lemma_section_of_push(init, x, SectionModel::MiscMetadata);
        lemma_section_of_push(init, x, SectionModel::EngageMetadata);
        lemma_section_of_push(init, x, SectionModel::SweepMetadata);
        lemma_assemble_optional_sections(init, buffer);
    }
}

/// A loaded file's sections are the header's: the file and scanner sections are the
/// header's file and scanner sections, and each optional section (equipment, HSDC,
/// misc. data, engage, sweep) is there exactly when the header holds it, with the
/// header's entries for it.
pub proof fn law_loaded_sections_are_the_headers(path: Seq<char>, buffer: Seq<u8>)
    ensures
        load_spec(path, buffer) matches Ok(f) ==> parse_header_spec(buffer) matches Ok(secs) && {
            &&& section_of(secs, SectionModel::FileMetadata) == Some(f.file_metadata)
            &&& section_of(secs, SectionModel::ScannerMetadata) == Some(f.scanner_metadata)
            &&& f.equipment_metadata == section_of(secs, SectionModel::EquipmentMetadata)
            &&& f.hdsc_metadata == section_of(secs, SectionModel::HSDCMetadata)
            &&& f.misc_metadata == section_of(secs, SectionModel::MiscMetadata)
            &&& f.engage_metadata == section_of(secs, SectionModel::EngageMetadata)
            &&& f.sweep_metadata == section_of(secs, SectionModel::SweepMetadata)
        },
{
    if let Ok(secs) = parse_header_spec(buffer) {
        lemma_header_sections_distinct(valid_header_lines(buffer_lines(buffer)));
        if let Some((fm, secs1)) = remove_section(secs, SectionModel::FileMetadata) {
            let p = section_position(secs, SectionModel::FileMetadata)->0;
            lemma_section_position(secs, SectionModel::FileMetadata);
            lemma_section_of_remove(secs, p, SectionModel::ScannerMetadata);
            lemma_section_of_remove(secs, p, SectionModel::EquipmentMetadata);
            lemma_section_of_remove(secs, p, SectionModel::HSDCMetadata);
            lemma_section_of_remove(secs, p, SectionModel::MiscMetadata);
            lemma_section_of_remove(secs, p, SectionModel::EngageMetadata);
            lemma_section_of_remove(secs, p, SectionModel::SweepMetadata);
            if let Some((sm, rest)) = remove_section(secs1, SectionModel::ScannerMetadata) {
                let q = section_position(secs1, SectionModel::ScannerMetadata)->0;
                lemma_section_position(secs1, SectionModel::ScannerMetadata);
                lemma_section_of_remove(secs1, q, SectionModel::EquipmentMetadata);
                lemma_section_of_remove(secs1, q, SectionModel::HSDCMetadata);
                lemma_section_of_remove(secs1, q, SectionModel::MiscMetadata);
                lemma_section_of_remove(secs1, q, SectionModel::EngageMetadata);
                lemma_section_of_remove(secs1, q, SectionModel::SweepMetadata);
                lemma_assemble_optional_sections(rest, buffer);
            }
        }
    }
}

/// The entries of the channel sections of `secs`, in order.
pub open spec fn channel_tables(secs: Seq<(SectionModel, Entries)>) -> Seq<Entries>
    decreases secs.len(),
{
    if secs.len() == 0 {
        Seq::empty()
    } else if secs.last().0 is Channels {
        channel_tables(secs.drop_last()).push(secs.last().1)
    } else {
        channel_tables(secs.drop_last())
    }
}

proof fn lemma_channel_tables_remove(secs: Seq<(SectionModel, Entries)>, p: int)
    requires
        0 <= p < secs.len(),
        !(secs[p].0 is Channels),
    ensures
        channel_tables(secs.remove(p)) == channel_tables(secs),
    decreases secs.len(),
{
    if p == secs.len() - 1 {
        assert(secs.remove(p) =~= secs.drop_last());
    } else {
        lemma_channel_tables_remove(secs.drop_last(), p);
        assert(secs.remove(p).drop_last() =~= secs.drop_last().remove(p));
        assert(secs.remove(p).last() == secs.last());
    }
}

proof fn lemma_assemble_channels(rest: Seq<(SectionModel, Entries)>, buffer: Seq<u8>)
    ensures
        assemble(rest, buffer) matches Ok(a) ==> a.channels.len() == channel_tables(rest).len()
            && forall|k: int|
            0 <= k < a.channels.len() ==> channel_spec(#[trigger] channel_tables(rest)[k], buffer)
                == Ok::<ChannelModel, ChannelErrorModel>(a.channels[k]),
    decreases rest.len(),
{
    if rest.len() > 0 {
        lemma_assemble_channels(rest.drop_last(), buffer);
        if let Ok(a) = assemble(rest.drop_last(), buffer) {
            if let Ok(b) = assemble_step(a, rest.last(), buffer) {
                let t = channel_tables(rest);
                let t0 = channel_tables(rest.drop_last());
                assert forall|k: int| 0 <= k < b.channels.len() implies channel_spec(
                    #[trigger] t[k],
                    buffer,
                ) == Ok::<ChannelModel, ChannelErrorModel>(b.channels[k]) by {
                    if k < a.channels.len() {
                        assert(t[k] == t0[k]);
                        assert(b.channels[k] == a.channels[k]);
                    }
                }
            }
        }
    }
}

/// A loaded file's channels are its header's channel sections, in header order: as many
/// channels as channel sections, channel `k` being what `Channel::from_metadata` makes
/// of the `k`-th channel section and the file's bytes.
pub proof fn law_loaded_channels_are_the_channel_sections(path: Seq<char>, buffer: Seq<u8>)
    ensures
        load_spec(path, buffer) matches Ok(f) ==> parse_header_spec(buffer) matches Ok(secs) && {
            &&& f.channels.len() == channel_tables(secs).len()
            &&& forall|k: int|
                0 <= k < f.channels.len() ==> channel_spec(#[trigger] channel_tables(secs)[k], buffer)
                    == Ok::<ChannelModel, ChannelErrorModel>(f.channels[k])
        },
{
    if let Ok(secs) = parse_header_spec(buffer) {
        if let Some((fm, secs1)) = remove_section(secs, SectionModel::FileMetadata) {
            let p = section_position(secs, SectionModel::FileMetadata)->0;
            lemma_section_position(secs, SectionModel::FileMetadata);
            lemma_channel_tables_remove(secs, p);
            if let Some((sm, rest)) = remove_section(secs1, SectionModel::ScannerMetadata) {
                let q = section_position(secs1, SectionModel::ScannerMetadata)->0;
                lemma_section_position(secs1, SectionModel::ScannerMetadata);
                lemma_channel_tables_remove(secs1, q);
                lemma_assemble_channels(rest, buffer);
            }
        }
    }
}

/// The number of channel sections among `rest`.
pub open spec fn channel_section_count(rest: Seq<(SectionModel, Entries)>) -> nat
    decreases rest.len(),
{
    if rest.len() == 0 {
        0
    } else {
        channel_section_count(rest.drop_last()) + if rest.last().0 is Channels {
            1nat
        } else {
            0nat
        }
    }
}

/// A file that loads has a channel for each channel section of its header, in header
/// order, and the file and scanner sections must be in the header.
pub proof fn law_loaded_file_has_its_sections(path: Seq<char>, buffer: Seq<u8>)
    ensures
        load_spec(path, buffer) matches Ok(f) ==> {
            let secs = parse_header_spec(buffer)->Ok_0;
            let secs1 = (remove_section(secs, SectionModel::FileMetadata)->0).1;
            let rest = (remove_section(secs1, SectionModel::ScannerMetadata)->0).1;
            &&& parse_header_spec(buffer) is Ok
            &&& section_position(secs, SectionModel::FileMetadata) is Some
            &&& section_position(secs1, SectionModel::ScannerMetadata) is Some
            &&& f.channels.len() == channel_section_count(rest)
        },
{
    if let Ok(secs) = parse_header_spec(buffer) {
        if let Some((fm, secs1)) = remove_section(secs, SectionModel::FileMetadata) {
            if let Some((sm, rest)) = remove_section(secs1, SectionModel::ScannerMetadata) {
                lemma_assemble_channel_count(rest, buffer);
            }
        }
    }
}

proof fn lemma_assemble_channel_count(rest: Seq<(SectionModel, Entries)>, buffer: Seq<u8>)
    ensures
        assemble(rest, buffer) matches Ok(a) ==> a.channels.len() == channel_section_count(rest),
    decreases rest.len(),
{
    if rest.len() > 0 {
        lemma_assemble_channel_count(rest.drop_last(), buffer);
    }
}

} // verus!

verus! {

/// How a section is named in messages.
pub open spec fn section_title(s: SectionModel) -> Seq<char> {
    match s {
        SectionModel::FileMetadata => "File Metadata"@,
        SectionModel::ScannerMetadata => "Scanner Metadata"@,
        SectionModel::EquipmentMetadata => "Equipment Metadata"@,
        SectionModel::HSDCMetadata => "HSDC Metadata"@,
        SectionModel::MiscMetadata => "Misc Metadata"@,
        SectionModel::EngageMetadata => "Engage Metadata"@,
        SectionModel::SweepMetadata => "Sweep Metadata"@,
        SectionModel::Channels(i) => "Channel "@ + nat_digits(i),
        SectionModel::Other(name) => name,
    }
}

impl HeaderSection {
    /// The section's name in messages.
    pub fn title(&self) -> (s: String)
        ensures
            s@ == section_title(self@),
    {
        match self {
            HeaderSection::FileMetadata => String::from_str("File Metadata"),
            HeaderSection::ScannerMetadata => String::from_str("Scanner Metadata"),
            HeaderSection::EquipmentMetadata => String::from_str("Equipment Metadata"),
            HeaderSection::HSDCMetadata => String::from_str("HSDC Metadata"),
            HeaderSection::MiscMetadata => String::from_str("Misc Metadata"),
            HeaderSection::EngageMetadata => String::from_str("Engage Metadata"),
            HeaderSection::SweepMetadata => String::from_str("Sweep Metadata"),
            HeaderSection::Channels(i) => {
                let mut s = String::from_str("Channel ");
                push_str(&mut s, usize_to_string(*i).as_str());
                s
            },
            HeaderSection::Other(name) => name.clone(),
        }
    }
}

/// The message of a scan error.
pub open spec fn scan_error_text(e: ScanErrorModel) -> Seq<PieceModel> {
    match e {
        ScanErrorModel::NoHeightChannel => plain_text("Rustyscope Error: couldn't get channel 0 (Z height)."@),
        ScanErrorModel::NoXChannel => plain_text("Rustyscope Error: couldn't get channel 1 (Y scan)."@),
        ScanErrorModel::Metadata(m) => metadata_error_text(m),
        ScanErrorModel::Channel(c) => channel_error_text(c),
    }
}

/// The message of a load error.
pub open spec fn load_error_text(e: LoadErrorModel) -> Seq<PieceModel> {
    match e {
        LoadErrorModel::TooShort => plain_text("File header too short."@),
        LoadErrorModel::Line(m) => metadata_error_text(m),
        LoadErrorModel::MissingSection(s) => plain_text("Rustyscope Error: Missing section '"@ + section_title(s)
            + "'"@),
        LoadErrorModel::Channel { index, error } => plain_text("Rustyscope parsing channel "@ + nat_digits(index)
            + ": "@) + channel_error_text(error),
        LoadErrorModel::Scan(s) => plain_text("Rustyscope parsing scan data: "@) + scan_error_text(s),
    }
}

impl ScanError {
    /// The error's message.
    pub fn message(&self) -> (v: Vec<TextPiece>)
        ensures
            pieces_view(v@) == scan_error_text(self@),
    {
        match self {
            ScanError::NoHeightChannel => plain_pieces(String::from_str("Rustyscope Error: couldn't get channel 0 (Z height).")),
            ScanError::NoXChannel => plain_pieces(String::from_str("Rustyscope Error: couldn't get channel 1 (Y scan).")),
            ScanError::Metadata(m) => m.message(),
            ScanError::Channel(c) => c.message(),
        }
    }
}

impl LoadError {
    /// The error's message.
    pub fn message(&self) -> (v: Vec<TextPiece>)
        ensures
            pieces_view(v@) == load_error_text(self@),
    {
        let mut s = String::new();
        match self {
            LoadError::TooShort => {
                push_str(&mut s, "File header too short.");
                plain_pieces(s)
            },
            LoadError::Line(m) => m.message(),
            LoadError::MissingSection(sec) => {
                push_str(&mut s, "Rustyscope Error: Missing section '");
                push_str(&mut s, sec.title().as_str());
                push_str(&mut s, "'");
                assert(s@ =~= "Rustyscope Error: Missing section '"@ + section_title(sec@) + "'"@);
                plain_pieces(s)
            },
            LoadError::Channel { index, error } => {
                push_str(&mut s, "Rustyscope parsing channel ");
                push_str(&mut s, usize_to_string(*index).as_str());
                push_str(&mut s, ": ");
                assert(s@ =~= "Rustyscope parsing channel "@ + nat_digits(*index as nat) + ": "@);
                join_pieces(plain_pieces(s), error.message())
            },
            LoadError::Scan(e) => {
                push_str(&mut s, "Rustyscope parsing scan data: ");
                join_pieces(plain_pieces(s), e.message())
            },
        }
    }
}

} // verus!

verus! {

/// What the header parser keeps true of channel indices: the current channel section
/// has the current index, and every channel section read so far has an index no larger,
/// strictly smaller once another section is current.
pub open spec fn channel_indices_ok(st: HeaderState) -> bool {
    &&& st.current matches Some(SectionModel::Channels(i)) ==> i == st.channel_idx
    &&& forall|k: int|
        0 <= k < st.sections.len() ==> ((#[trigger] st.sections[k]).0 matches SectionModel::Channels(j)
            ==> if st.current matches Some(SectionModel::Channels(_)) {
            j <= st.channel_idx
        } else {
            j < st.channel_idx
        })
}

proof fn lemma_add_section_line_sections(sections: Seq<(SectionModel, Entries)>, s: SectionModel, line: Seq<char>)
    ensures
        add_section_line(sections, s, line) matches Ok(secs) ==> forall|k: int|
            0 <= k < secs.len() ==> (#[trigger] secs[k]).0 == s || exists|j: int|
                0 <= j < sections.len() && sections[j].0 == secs[k].0,
{
    lemma_section_position(sections, s);
    match section_position(sections, s) {
        Some(i) => {
            if let Ok(e) = insert_line_spec(sections[i].1, line) {
                let secs = sections.update(i, (s, e));
                assert forall|k: int| 0 <= k < secs.len() implies (#[trigger] secs[k]).0 == s || exists|j: int|
                    0 <= j < sections.len() && sections[j].0 == secs[k].0 by {
                    if k != i {
                        assert(sections[k].0 == secs[k].0);
                    }
                }
            }
        },
        None => {
            if let Ok(e) = insert_line_spec(Seq::empty(), line) {
                let secs = sections.push((s, e));
                assert forall|k: int| 0 <= k < secs.len() implies (#[trigger] secs[k]).0 == s || exists|j: int|
                    0 <= j < sections.len() && sections[j].0 == secs[k].0 by {
                    if k < sections.len() {
                        assert(sections[k].0 == secs[k].0);
                    }
                }
            }
        },
    }
}

proof fn lemma_channel_indices(lines: Seq<Seq<char>>)
    ensures
        header_run(lines) matches Ok(st) ==> channel_indices_ok(st),
    decreases lines.len(),
{
    if lines.len() > 0 {
        lemma_channel_indices(lines.drop_last());
        if let Ok(st) = header_run(lines.drop_last()) {
            let line = lines.last();
            if let Ok(st2) = header_step(st, line) {
                if !(line.len() > 0 && line[0] == section_prefix()) {
                    if let Some(s) = st.current {
                        lemma_add_section_line_sections(st.sections, s, line);
                    }
                }
            }
        }
    }
}

/// Each channel section opens a table of its own: when a `*Ciao image list` line comes,
/// the channel index it gets belongs to no section read before, so its data lines never
/// go into an earlier channel's table.
pub proof fn law_channel_sections_are_fresh(lines: Seq<Seq<char>>, line: Seq<char>)
    requires
        header_run(lines) is Ok,
        line.len() > 0,
        line[0] == section_prefix(),
        ascii_lower(line.drop_first()) == CIAO_IMAGE_LIST@,
    ensures
        ({
            let st = header_run(lines)->Ok_0;
            let st2 = header_step(st, line)->Ok_0;
            &&& header_step(st, line) is Ok
            &&& st2.current matches Some(SectionModel::Channels(i)) && section_position(
                st.sections,
                SectionModel::Channels(i),
            ) is None
        }),
{
    lemma_channel_indices(lines);
    reveal_strlit("file list");
    reveal_strlit("scanner list");
    reveal_strlit("ciao scan list");
    reveal_strlit("equipment list");
    reveal_strlit("hsdc list");
    reveal_strlit("misc. data list");
    reveal_strlit("engage list");
    reveal_strlit("sweep list");
    reveal_strlit("ciao image list");
    let st = header_run(lines)->Ok_0;
    let idx = if st.current matches Some(SectionModel::Channels(_)) {
        st.channel_idx + 1
    } else {
        st.channel_idx
    };
    // The section names differ from `ciao image list` in length or in their first letter.
    assert(MISC_DATA_LIST@[0] != CIAO_IMAGE_LIST@[0]);
    assert(CIAO_SCAN_LIST@.len() != CIAO_IMAGE_LIST@.len());
    assert(classify_section(ascii_lower(line.drop_first()), idx) == SectionModel::Channels(idx));
    let st2 = header_step(st, line)->Ok_0;
    assert(st2.current == Some(SectionModel::Channels(idx)));
    let i = st2.channel_idx;
    lemma_section_position(st.sections, SectionModel::Channels(i));
    if let Some(p) = section_position(st.sections, SectionModel::Channels(i)) {
        assert(st.sections[p].0 == SectionModel::Channels(i));
    }
}

} // verus!
