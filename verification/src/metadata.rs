//! The key/value entries of one header section.

use vstd::prelude::*;

use crate::numbers::{
    check_float, decimal_text, float_check_spec, i64_to_string, parse_i64, parse_i64_spec,
    parse_usize, parse_usize_spec, FloatErrorKind, IntErrorKind,
};
use crate::pattern::{capture_group_one, regex_group_one};
use crate::text::{chars_of, join_pieces, pieces_view, plain_pieces, plain_text, push_str, PieceModel, TextPiece};

verus! {

/// The value of one header entry.  A float is kept as the literal that was read, which
/// `str::parse::<f64>` accepts; the number itself is computed where floats are used.
#[derive(Debug, Clone)]
pub enum MetadataValue {
    Integer(i64),
    Float(String),
    String(String),
}

/// The mathematical model of a header value.
pub enum ValueModel {
    Integer(i64),
    Float(Seq<char>),
    Text(Seq<char>),
}

impl View for MetadataValue {
    type V = ValueModel;

    open spec fn view(&self) -> ValueModel {
        match self {
            MetadataValue::Integer(x) => ValueModel::Integer(*x),
            MetadataValue::Float(s) => ValueModel::Float(s@),
            MetadataValue::String(s) => ValueModel::Text(s@),
        }
    }
}

/// What a failed metadata operation reports.
#[derive(Debug, Clone)]
pub enum MetadataError {
    /// `get` found no entry under the key.
    NotFound(String),
    /// `get_string` found no entry under the key.
    StringNotFound(String),
    /// A data line holds no `": "` between key and value.
    MissingDelimiter,
    /// The pattern did not match the text stored under the key.
    UnexpectedFormat { key: String, text: String },
    /// The integer stored under the key does not fit the wanted type.
    OutOfRange(String),
    /// A float literal is stored where an integer is wanted.
    NotAnInteger { key: String, literal: String },
    /// The text to read as an integer is not one.
    InvalidInteger(IntErrorKind),
    /// The text to read as a float is not one.
    InvalidFloat(FloatErrorKind),
}

/// The model of `MetadataError`.
pub enum MetadataErrorModel {
    NotFound(Seq<char>),
    StringNotFound(Seq<char>),
    MissingDelimiter,
    UnexpectedFormat { key: Seq<char>, text: Seq<char> },
    OutOfRange(Seq<char>),
    NotAnInteger { key: Seq<char>, literal: Seq<char> },
    InvalidInteger(IntErrorKind),
    InvalidFloat(FloatErrorKind),
}

impl View for MetadataError {
    type V = MetadataErrorModel;

    open spec fn view(&self) -> MetadataErrorModel {
        match self {
            MetadataError::NotFound(k) => MetadataErrorModel::NotFound(k@),
            MetadataError::StringNotFound(k) => MetadataErrorModel::StringNotFound(k@),
            MetadataError::MissingDelimiter => MetadataErrorModel::MissingDelimiter,
            MetadataError::UnexpectedFormat { key, text } => MetadataErrorModel::UnexpectedFormat {
                key: key@,
                text: text@,
            },
            MetadataError::OutOfRange(k) => MetadataErrorModel::OutOfRange(k@),
            MetadataError::NotAnInteger { key, literal } => MetadataErrorModel::NotAnInteger {
                key: key@,
                literal: literal@,
            },
            MetadataError::InvalidInteger(e) => MetadataErrorModel::InvalidInteger(*e),
            MetadataError::InvalidFloat(e) => MetadataErrorModel::InvalidFloat(*e),
        }
    }
}

/// Where a float-valued entry comes from: an integer entry, or a float literal (stored
/// as such, or extracted from a text entry) that `str::parse::<f64>` accepts.
#[derive(Debug, Clone)]
pub enum FloatSource {
    Integer(i64),
    Literal(String),
}

pub enum FloatSourceModel {
    Integer(i64),
    Literal(Seq<char>),
}

impl View for FloatSource {
    type V = FloatSourceModel;

    open spec fn view(&self) -> FloatSourceModel {
        match self {
            FloatSource::Integer(x) => FloatSourceModel::Integer(*x),
            FloatSource::Literal(s) => FloatSourceModel::Literal(s@),
        }
    }
}

/// The entries of a header section, in the order in which their keys first appeared.
#[derive(Debug, Clone)]
pub struct Metadata {
    pub data: Vec<(String, MetadataValue)>,
}

/// The model of a section: its `(key, value)` entries in order.
pub type Entries = Seq<(Seq<char>, ValueModel)>;

impl View for Metadata {
    type V = Entries;

    open spec fn view(&self) -> Entries {
        self.data@.map_values(|e: (String, MetadataValue)| (e.0@, e.1@))
    }
}

/// The value of the first entry under `key`.
pub open spec fn lookup(entries: Entries, key: Seq<char>) -> Option<ValueModel>
    decreases entries.len(),
{
    if entries.len() == 0 {
        None
    } else if entries[0].0 == key {
        Some(entries[0].1)
    } else {
        lookup(entries.drop_first(), key)
    }
}

/// No key occurs twice: the first entry's key occurs in no later entry, and so on for
/// the rest.
pub open spec fn keys_distinct(entries: Entries) -> bool
    decreases entries.len(),
{
    entries.len() == 0 || (lookup(entries.drop_first(), entries[0].0) is None && keys_distinct(
        entries.drop_first(),
    ))
}

/// Stores `value` under `key`: it replaces the value of an entry under that key, or is
/// added at the end.
pub open spec fn insert_entry(entries: Entries, key: Seq<char>, value: ValueModel) -> Entries
    decreases entries.len(),
{
    if entries.len() == 0 {
        seq![(key, value)]
    } else if entries[0].0 == key {
        seq![(key, value)] + entries.drop_first()
    } else {
        seq![entries[0]] + insert_entry(entries.drop_first(), key, value)
    }
}

/// The lowercase that `str::to_lowercase` computes (full Unicode case mapping).
pub uninterp spec fn unicode_lowercase(s: Seq<char>) -> Seq<char>;

/// `str::to_lowercase` from std.  The contract names its result, the Unicode lowercase
/// mapping, which is not written out here.
#[verifier::external_body]
fn to_lowercase(s: &str) -> (r: String)
    ensures
        r@ == unicode_lowercase(s@),
{
    s.to_lowercase()
}

/// The position of the first `": "` in `s`.
pub open spec fn delimiter_index(s: Seq<char>) -> Option<int>
    decreases s.len(),
{
    if s.len() < 2 {
        None
    } else if s[0] == ':' && s[1] == ' ' {
        Some(0)
    } else {
        match delimiter_index(s.drop_first()) {
            Some(i) => Some(i + 1),
            None => None,
        }
    }
}

/// How a value text is read: as an `i64` when `str::parse::<i64>` accepts it, else as a
/// float literal when `str::parse::<f64>` accepts it, else as text.
pub open spec fn parse_value_spec(s: Seq<char>) -> ValueModel {
    match parse_i64_spec(s) {
        Ok(n) => ValueModel::Integer(n as i64),
        Err(_) => if float_check_spec(s) is None {
            ValueModel::Float(s)
        } else {
            ValueModel::Text(s)
        },
    }
}

/// The entries after `insert_line(line)`: the line is split at its first `": "`, the key
/// is lowercased, and the value read by `parse_value_spec`.
pub open spec fn insert_line_spec(entries: Entries, line: Seq<char>) -> Result<Entries, MetadataErrorModel> {
    match delimiter_index(line) {
        None => Err(MetadataErrorModel::MissingDelimiter),
        Some(i) => Ok(
            insert_entry(
                entries,
                unicode_lowercase(line.subrange(0, i)),
                parse_value_spec(line.subrange(i + 2, line.len() as int)),
            ),
        ),
    }
}

/// What `regex_extract` gives: the text itself without a pattern, else capture group 1.
pub open spec fn extract_spec(key: Seq<char>, text: Seq<char>, pattern: Option<Seq<char>>) -> Result<
    Seq<char>,
    MetadataErrorModel,
> {
    match pattern {
        None => Ok(text),
        Some(p) => match regex_group_one(p, text) {
            Some(g) => Ok(g),
            None => Err(MetadataErrorModel::UnexpectedFormat { key, text }),
        },
    }
}

/// What `get_int` gives for an entry.
pub open spec fn get_int_spec(entries: Entries, key: Seq<char>, pattern: Option<Seq<char>>) -> Result<
    int,
    MetadataErrorModel,
> {
    match lookup(entries, key) {
        None => Err(MetadataErrorModel::NotFound(key)),
        Some(ValueModel::Integer(x)) => if 0 <= x && x <= usize::MAX {
            Ok(x as int)
        } else {
            Err(MetadataErrorModel::OutOfRange(key))
        },
        Some(ValueModel::Float(lit)) => Err(MetadataErrorModel::NotAnInteger { key, literal: lit }),
        Some(ValueModel::Text(s)) => match extract_spec(key, s, pattern) {
            Err(e) => Err(e),
            Ok(t) => match parse_usize_spec(t) {
                Ok(n) => Ok(n),
                Err(k) => Err(MetadataErrorModel::InvalidInteger(k)),
            },
        },
    }
}

/// What `get_float` gives for an entry.
pub open spec fn get_float_spec(entries: Entries, key: Seq<char>, pattern: Option<Seq<char>>) -> Result<
    FloatSourceModel,
    MetadataErrorModel,
> {
    match lookup(entries, key) {
        None => Err(MetadataErrorModel::NotFound(key)),
        Some(ValueModel::Integer(x)) => Ok(FloatSourceModel::Integer(x)),
        Some(ValueModel::Float(lit)) => Ok(FloatSourceModel::Literal(lit)),
        Some(ValueModel::Text(s)) => match extract_spec(key, s, pattern) {
            Err(e) => Err(e),
            Ok(t) => match float_check_spec(t) {
                None => Ok(FloatSourceModel::Literal(t)),
                Some(k) => Err(MetadataErrorModel::InvalidFloat(k)),
            },
        },
    }
}

/// What `get_string` gives for an entry: an integer in decimal, a float as `f64` shows
/// the number (a `Float` piece holding the literal, not the literal's own text), or a
/// text entry after pattern extraction.
pub open spec fn get_string_spec(entries: Entries, key: Seq<char>, pattern: Option<Seq<char>>) -> Result<
    PieceModel,
    MetadataErrorModel,
> {
    match lookup(entries, key) {
        None => Err(MetadataErrorModel::StringNotFound(key)),
        Some(ValueModel::Integer(x)) => Ok(PieceModel::Plain(decimal_text(x as int))),
        Some(ValueModel::Float(lit)) => Ok(PieceModel::Float(lit)),
        Some(ValueModel::Text(s)) => match extract_spec(key, s, pattern) {
            Ok(t) => Ok(PieceModel::Plain(t)),
            Err(e) => Err(e),
        },
    }
}

pub open spec fn option_view(p: Option<&str>) -> Option<Seq<char>> {
    match p {
        Some(s) => Some(s@),
        None => None,
    }
}

/// Reads a value text: an `i64`, else a float literal, else text.
pub fn parse_value(s: &str) -> (v: MetadataValue)
    ensures
        v@ == parse_value_spec(s@),
{
    let chars = chars_of(s);
    match parse_i64(&chars) {
        Ok(x) => MetadataValue::Integer(x),
        Err(_) => {
            if check_float(&chars).is_none() {
                MetadataValue::Float(s.to_owned())
            } else {
                MetadataValue::String(s.to_owned())
            }
        },
    }
}

proof fn lemma_delimiter_index(s: Seq<char>)
    ensures
        delimiter_index(s) matches Some(i) ==> 0 <= i && i + 2 <= s.len(),
    decreases s.len(),
{
    if s.len() >= 2 && !(s[0] == ':' && s[1] == ' ') {
        lemma_delimiter_index(s.drop_first());
    }
}

/// The position of the first `": "` in `chars`.
fn find_delimiter(chars: &[char]) -> (r: Option<usize>)
    ensures
        match r {
            Some(i) => delimiter_index(chars@) == Some(i as int) && i + 2 <= chars@.len(),
            None => delimiter_index(chars@) is None,
        },
{
    let len = chars.len();
    let mut i: usize = 0;
    assert(chars@.skip(0) =~= chars@);
    while i < len && i + 1 < len
        invariant
            len == chars@.len(),
            i <= len,
            delimiter_index(chars@) == match delimiter_index(chars@.skip(i as int)) {
                Some(j) => Some(j + i),
                None => None::<int>,
            },
        decreases len - i,
    {
        let ghost rest = chars@.skip(i as int);
        assert(rest[0] == chars@[i as int] && rest[1] == chars@[i + 1]);
        if chars[i] == ':' && chars[i + 1] == ' ' {
            return Some(i);
        }
        assert(rest.drop_first() =~= chars@.skip(i + 1));
        i = i + 1;
    }
    None
}

proof fn lemma_lookup_view(data: Seq<(String, MetadataValue)>, key: Seq<char>, i: int)
    requires
        0 <= i <= data.len(),
        forall|j: int| 0 <= j < i ==> (#[trigger] data[j]).0@ != key,
    ensures
        lookup(data.map_values(|e: (String, MetadataValue)| (e.0@, e.1@)), key) == lookup(
            data.skip(i).map_values(|e: (String, MetadataValue)| (e.0@, e.1@)),
            key,
        ),
    decreases i,
{
    if i == 0 {
        assert(data.skip(0) =~= data);
    } else {
        let m = data.map_values(|e: (String, MetadataValue)| (e.0@, e.1@));
        assert forall|j: int| 0 <= j < i - 1 implies (#[trigger] data.drop_first()[j]).0@ != key by {
            assert(data.drop_first()[j] == data[j + 1]);
        }
        assert(data[0].0@ != key);
        assert(m[0] == (data[0].0@, data[0].1@));
        assert(m.drop_first() =~= data.drop_first().map_values(
            |e: (String, MetadataValue)| (e.0@, e.1@),
        ));
        assert(data.drop_first().skip(i - 1) =~= data.skip(i));
        lemma_lookup_view(data.drop_first(), key, i - 1);
    }
}

proof fn lemma_insert_view(data: Seq<(String, MetadataValue)>, key: String, value: MetadataValue, i: int)
    requires
        0 <= i <= data.len(),
        forall|j: int| 0 <= j < i ==> (#[trigger] data[j]).0@ != key@,
        i < data.len() ==> data[i].0@ == key@,
    ensures
        (if i < data.len() {
            data.update(i, (key, value))
        } else {
            data.push((key, value))
        }).map_values(|e: (String, MetadataValue)| (e.0@, e.1@)) == insert_entry(
            data.map_values(|e: (String, MetadataValue)| (e.0@, e.1@)),
            key@,
            value@,
        ),
    decreases i,
{
    let m = data.map_values(|e: (String, MetadataValue)| (e.0@, e.1@));
    let new_data = if i < data.len() {
        data.update(i, (key, value))
    } else {
        data.push((key, value))
    };
    if data.len() == 0 {
        assert(new_data.map_values(|e: (String, MetadataValue)| (e.0@, e.1@)) =~= seq![
            (key@, value@),
        ]);
    } else if i == 0 {
        assert(new_data.map_values(|e: (String, MetadataValue)| (e.0@, e.1@)) =~= seq![
            (key@, value@),
        ] + m.drop_first());
    } else {
        lemma_insert_view(data.drop_first(), key, value, i - 1);
        let rest_new = if i - 1 < data.drop_first().len() {
            data.drop_first().update(i - 1, (key, value))
        } else {
            data.drop_first().push((key, value))
        };
        assert(new_data =~= seq![data[0]] + rest_new);
        assert(m.drop_first() =~= data.drop_first().map_values(
            |e: (String, MetadataValue)| (e.0@, e.1@),
        ));
        assert(new_data.map_values(|e: (String, MetadataValue)| (e.0@, e.1@)) =~= seq![m[0]]
            + rest_new.map_values(|e: (String, MetadataValue)| (e.0@, e.1@)));
    }
}

impl Metadata {
    /// The section's invariant: each key occurs once.
    pub open spec fn wf(&self) -> bool {
        keys_distinct(self@)
    }

    /// An empty section.
    pub fn new() -> (m: Metadata)
        ensures
            m@ == Seq::<(Seq<char>, ValueModel)>::empty(),
            m.wf(),
    {
        let m = Metadata { data: Vec::new() };
        assert(m@ =~= Seq::<(Seq<char>, ValueModel)>::empty());
        m
    }

    /// The position of the first entry under `key`.
    fn position(&self, key: &str) -> (r: Option<usize>)
        ensures
            match r {
                Some(i) => i < self.data@.len() && self.data@[i as int].0@ == key@ && forall|j: int|
                    0 <= j < i ==> (#[trigger] self.data@[j]).0@ != key@,
                None => forall|j: int|
                    0 <= j < self.data@.len() ==> (#[trigger] self.data@[j]).0@ != key@,
            },
    {
        let n = self.data.len();
        let k = key.to_owned();
        let mut i: usize = 0;
        while i < n
            invariant
                n == self.data@.len(),
                k@ == key@,
                i <= n,
                forall|j: int| 0 <= j < i ==> (#[trigger] self.data@[j]).0@ != key@,
            decreases n - i,
        {
            if self.data[i].0 == k {
                return Some(i);
            }
            i = i + 1;
        }
        None
    }

    /// The value stored under `key`.
    pub fn get(&self, key: &str) -> (r: Result<&MetadataValue, MetadataError>)
        ensures
            match r {
                Ok(v) => lookup(self@, key@) == Some(v@),
                Err(e) => lookup(self@, key@) is None && e@ == MetadataErrorModel::NotFound(key@),
            },
    {
        let p = self.position(key);
        proof {
            let i = match p {
                Some(i) => i as int,
                None => self.data@.len() as int,
            };
            lemma_lookup_view(self.data@, key@, i);
            if i < self.data@.len() {
                assert(self.data@.skip(i)[0] == self.data@[i]);
            } else {
                assert(self.data@.skip(i) =~= Seq::<(String, MetadataValue)>::empty());
            }
        }
        match p {
            Some(i) => Ok(&self.data[i].1),
            None => Err(MetadataError::NotFound(key.to_owned())),
        }
    }

    /// Stores `value` under `key`, replacing the value of an entry under that key.
    pub fn insert(&mut self, key: String, value: MetadataValue)
        ensures
            final(self)@ == insert_entry(old(self)@, key@, value@),
            old(self).wf() ==> final(self).wf(),
    {
        proof {
            lemma_insert_keeps_keys_distinct(self@, key@, value@);
        }
        let p = self.position(key.as_str());
        let ghost i = match p {
            Some(i) => i as int,
            None => self.data@.len() as int,
        };
        proof {
            lemma_insert_view(self.data@, key, value, i);
        }
        match p {
            Some(i) => {
                self.data.set(i, (key, value));
            },
            None => {
                self.data.push((key, value));
            },
        }
    }

    /// Reads a data line `key: value` into the section: the key is lowercased and the
    /// value read as an integer, a float literal or text.
    pub fn insert_line(&mut self, line: &str) -> (r: Result<(), MetadataError>)
        ensures
            match insert_line_spec(old(self)@, line@) {
                Ok(e) => r is Ok && final(self)@ == e,
                Err(e) => r matches Err(err) && err@ == e && final(self)@ == old(self)@,
            },
            old(self).wf() ==> final(self).wf(),
    {
        let chars = chars_of(line);
        proof {
            lemma_delimiter_index(chars@);
        }
        match find_delimiter(&chars) {
            None => Err(MetadataError::MissingDelimiter),
            Some(i) => {
                let raw_key = crate::text::string_from_chars(&chars, 0, i);
                let len = chars.len();
                assert(i + 2 <= len);
                let value_text = crate::text::string_from_chars(&chars, i + 2, len);
                let key = to_lowercase(raw_key.as_str());
                let value = parse_value(value_text.as_str());
                self.insert(key, value);
                Ok(())
            },
        }
    }

    /// Capture group 1 of `pattern` in `text`, or `text` itself when there is no pattern.
    pub fn regex_extract(&self, key: &str, text: &str, pattern: Option<&str>) -> (r: Result<
        String,
        MetadataError,
    >)
        ensures
            match extract_spec(key@, text@, option_view(pattern)) {
                Ok(t) => r matches Ok(s) && s@ == t,
                Err(e) => r matches Err(err) && err@ == e,
            },
    {
        match pattern {
            None => Ok(text.to_owned()),
            Some(p) => extraction_result(key, text, capture_group_one(p, text)),
        }
    }

    /// The value under `key` as a `usize`: an integer entry converted, or a text entry
    /// (after pattern extraction) parsed as `str::parse::<usize>` does.
    pub fn get_int(&self, key: &str, pattern: Option<&str>) -> (r: Result<usize, MetadataError>)
        ensures
            match get_int_spec(self@, key@, option_view(pattern)) {
                Ok(n) => r matches Ok(v) && v as int == n,
                Err(e) => r matches Err(err) && err@ == e,
            },
    {
        let value = self.get(key)?;
        match value {
            MetadataValue::Integer(x) => {
                if 0 <= *x && (*x as i128) <= (usize::MAX as i128) {
                    Ok(*x as usize)
                } else {
                    Err(MetadataError::OutOfRange(key.to_owned()))
                }
            },
            MetadataValue::Float(lit) => Err(
                MetadataError::NotAnInteger { key: key.to_owned(), literal: lit.clone() },
            ),
            MetadataValue::String(s) => {
                let t = self.regex_extract(key, s.as_str(), pattern)?;
                let chars = chars_of(t.as_str());
                match parse_usize(&chars) {
                    Ok(n) => Ok(n),
                    Err(k) => Err(MetadataError::InvalidInteger(k)),
                }
            },
        }
    }

    /// The value under `key` as the source of a float: an integer entry, a float literal,
    /// or a text entry (after pattern extraction) that `str::parse::<f64>` accepts.
    pub fn get_float(&self, key: &str, pattern: Option<&str>) -> (r: Result<
        FloatSource,
        MetadataError,
    >)
        ensures
            match get_float_spec(self@, key@, option_view(pattern)) {
                Ok(f) => r matches Ok(v) && v@ == f,
                Err(e) => r matches Err(err) && err@ == e,
            },
    {
        let value = self.get(key)?;
        match value {
            MetadataValue::Integer(x) => Ok(FloatSource::Integer(*x)),
            MetadataValue::Float(lit) => Ok(FloatSource::Literal(lit.clone())),
            MetadataValue::String(s) => {
                let t = self.regex_extract(key, s.as_str(), pattern)?;
                let chars = chars_of(t.as_str());
                match check_float(&chars) {
                    None => Ok(FloatSource::Literal(t)),
                    Some(k) => Err(MetadataError::InvalidFloat(k)),
                }
            },
        }
    }

    /// The value under `key` as text: an integer in decimal, a float as `f64` shows the
    /// number, or a text entry after pattern extraction.
    pub fn get_string(&self, key: &str, pattern: Option<&str>) -> (r: Result<TextPiece, MetadataError>)
        ensures
            match get_string_spec(self@, key@, option_view(pattern)) {
                Ok(t) => r matches Ok(s) && s@ == t,
                Err(e) => r matches Err(err) && err@ == e,
            },
    {
        let value = match self.get(key) {
            Ok(v) => v,
            Err(_) => return Err(MetadataError::StringNotFound(key.to_owned())),
        };
        match value {
            MetadataValue::Integer(x) => Ok(TextPiece::Plain(i64_to_string(*x))),
            MetadataValue::Float(lit) => Ok(TextPiece::Float(lit.clone())),
            MetadataValue::String(s) => {
                let t = self.regex_extract(key, s.as_str(), pattern)?;
                Ok(TextPiece::Plain(t))
            },
        }
    }
}

/// Turns what the pattern captured in `text` into the result of an extraction.
pub fn extraction_result(key: &str, text: &str, capture: Option<String>) -> (r: Result<
    String,
    MetadataError,
>)
    ensures
        match capture {
            Some(g) => r matches Ok(s) && s@ == g@,
            None => r matches Err(err) && err@ == (MetadataErrorModel::UnexpectedFormat {
                key: key@,
                text: text@,
            }),
        },
{
    match capture {
        Some(g) => Ok(g),
        None => Err(MetadataError::UnexpectedFormat { key: key.to_owned(), text: text.to_owned() }),
    }
}

} // verus!

verus! {

/// Storing a value keeps each key once.
pub proof fn lemma_insert_keeps_keys_distinct(entries: Entries, key: Seq<char>, value: ValueModel)
    ensures
        keys_distinct(entries) ==> keys_distinct(insert_entry(entries, key, value)),
    decreases entries.len(),
{
    let ins = insert_entry(entries, key, value);
    if entries.len() == 0 {
        assert(ins.drop_first() =~= entries);
    } else if entries[0].0 == key {
        assert(ins.drop_first() =~= entries.drop_first());
    } else {
        lemma_insert_keeps_keys_distinct(entries.drop_first(), key, value);
        lemma_lookup_insert(entries.drop_first(), key, value, entries[0].0);
        assert(ins.drop_first() =~= insert_entry(entries.drop_first(), key, value));
    }
}

/// Reading a data line keeps each key once.
pub proof fn lemma_insert_line_keeps_keys_distinct(entries: Entries, line: Seq<char>)
    ensures
        keys_distinct(entries) ==> (insert_line_spec(entries, line) matches Ok(e) ==> keys_distinct(e)),
{
    if let Some(i) = delimiter_index(line) {
        lemma_insert_keeps_keys_distinct(
            entries,
            unicode_lowercase(line.subrange(0, i)),
            parse_value_spec(line.subrange(i + 2, line.len() as int)),
        );
    }
}

proof fn lemma_lookup_insert(entries: Entries, key: Seq<char>, value: ValueModel, other: Seq<char>)
    ensures
        lookup(insert_entry(entries, key, value), key) == Some(value),
        other != key ==> lookup(insert_entry(entries, key, value), other) == lookup(entries, other),
    decreases entries.len(),
{
    let ins = insert_entry(entries, key, value);
    if entries.len() == 0 {
        assert(ins.drop_first() =~= entries);
    } else if entries[0].0 == key {
        assert(ins.drop_first() =~= entries.drop_first());
    } else {
        lemma_lookup_insert(entries.drop_first(), key, value, other);
        assert(ins.drop_first() =~= insert_entry(entries.drop_first(), key, value));
    }
}

/// What a data line writes is what a read gives back: after `insert_line` accepts a line
/// `K: V`, the lowercased key `K` holds the value read from `V`, and every other key
/// holds what it held before.
pub proof fn law_insert_line_then_lookup(entries: Entries, line: Seq<char>, other: Seq<char>)
    requires
        delimiter_index(line) is Some,
    ensures
        ({
            let i = delimiter_index(line)->0;
            let key = unicode_lowercase(line.subrange(0, i));
            &&& insert_line_spec(entries, line) is Ok
            &&& lookup(insert_line_spec(entries, line)->Ok_0, key) == Some(
                parse_value_spec(line.subrange(i + 2, line.len() as int)),
            )
            &&& other != key ==> lookup(insert_line_spec(entries, line)->Ok_0, other) == lookup(
                entries,
                other,
            )
        }),
{
    let i = delimiter_index(line)->0;
    lemma_lookup_insert(
        entries,
        unicode_lowercase(line.subrange(0, i)),
        parse_value_spec(line.subrange(i + 2, line.len() as int)),
        other,
    );
}

/// A line with no `": "` is refused and changes nothing.
pub proof fn law_line_without_delimiter(entries: Entries, line: Seq<char>)
    requires
        delimiter_index(line) is None,
    ensures
        insert_line_spec(entries, line) == Err::<Entries, MetadataErrorModel>(
            MetadataErrorModel::MissingDelimiter,
        ),
{
}

} // verus!

verus! {

/// An integer read from an entry fits a `usize`.
pub proof fn lemma_get_int_in_range(entries: Entries, key: Seq<char>, pattern: Option<Seq<char>>)
    ensures
        get_int_spec(entries, key, pattern) matches Ok(n) ==> 0 <= n <= usize::MAX,
{
    if let Some(ValueModel::Text(s)) = lookup(entries, key) {
        if let Ok(t) = extract_spec(key, s, pattern) {
            crate::numbers::lemma_parse_integer_in_range(t, false, 0, usize::MAX as int);
        }
    }
}

/// An integer entry read as text reads back as the same integer.
pub proof fn law_integer_text_reads_back(entries: Entries, key: Seq<char>, pattern: Option<Seq<char>>, n: i64)
    requires
        lookup(entries, key) == Some(ValueModel::Integer(n)),
    ensures
        get_string_spec(entries, key, pattern) == Ok::<PieceModel, MetadataErrorModel>(
            PieceModel::Plain(decimal_text(n as int)),
        ),
        parse_value_spec(decimal_text(n as int)) == ValueModel::Integer(n),
{
    crate::numbers::law_decimal_text_roundtrip(n);
}

} // verus!

verus! {

/// The text of an integer parse error, as `std::num::ParseIntError` displays it.
pub open spec fn int_error_text(k: IntErrorKind) -> Seq<char> {
    match k {
        IntErrorKind::Empty => "cannot parse integer from empty string"@,
        IntErrorKind::InvalidDigit => "invalid digit found in string"@,
        IntErrorKind::PosOverflow => "number too large to fit in target type"@,
        IntErrorKind::NegOverflow => "number too small to fit in target type"@,
    }
}

/// The text of a float parse error, as `std::num::ParseFloatError` displays it.
pub open spec fn float_error_text(k: FloatErrorKind) -> Seq<char> {
    match k {
        FloatErrorKind::Empty => "cannot parse float from empty string"@,
        FloatErrorKind::Invalid => "invalid float literal"@,
    }
}

/// The message of a metadata error.  A float stored where an integer is wanted is shown
/// as `f64` shows the number, between the plain parts of the message.
pub open spec fn metadata_error_text(e: MetadataErrorModel) -> Seq<PieceModel> {
    match e {
        MetadataErrorModel::NotFound(k) => plain_text("Rustyscope Error: couldn't find '"@ + k + "' entry"@),
        MetadataErrorModel::StringNotFound(k) => plain_text("Rustyscope Error couldn't find '"@ + k + "' entry"@),
        MetadataErrorModel::MissingDelimiter => plain_text("error inserting line - can't split without delimiter (: )"@),
        MetadataErrorModel::UnexpectedFormat { key, text } => plain_text("Rustyscope error parsing '"@ + key
            + "': '"@ + text + "' was in an unexpected format."@),
        MetadataErrorModel::OutOfRange(k) => plain_text("Rustscope error parsing '"@ + k
            + "': out of range integral type conversion attempted"@),
        MetadataErrorModel::NotAnInteger { key, literal } => seq![
            PieceModel::Plain("Rustyscope error parsing '"@ + key + "': '"@),
            PieceModel::Float(literal),
            PieceModel::Plain("' should be an integer not a float."@),
        ],
        MetadataErrorModel::InvalidInteger(k) => plain_text(int_error_text(k)),
        MetadataErrorModel::InvalidFloat(k) => plain_text(float_error_text(k)),
    }
}

/// The text of an integer parse error.
pub fn int_error_message(k: IntErrorKind) -> (s: String)
    ensures
        s@ == int_error_text(k),
{
    match k {
        IntErrorKind::Empty => String::from_str("cannot parse integer from empty string"),
        IntErrorKind::InvalidDigit => String::from_str("invalid digit found in string"),
        IntErrorKind::PosOverflow => String::from_str("number too large to fit in target type"),
        IntErrorKind::NegOverflow => String::from_str("number too small to fit in target type"),
    }
}

/// The text of a float parse error.
pub fn float_error_message(k: FloatErrorKind) -> (s: String)
    ensures
        s@ == float_error_text(k),
{
    match k {
        FloatErrorKind::Empty => String::from_str("cannot parse float from empty string"),
        FloatErrorKind::Invalid => String::from_str("invalid float literal"),
    }
}

impl MetadataError {
    /// The error's message.
    pub fn message(&self) -> (v: Vec<TextPiece>)
        ensures
            pieces_view(v@) == metadata_error_text(self@),
    {
        let mut s = String::new();
        match self {
            MetadataError::NotFound(k) => {
                push_str(&mut s, "Rustyscope Error: couldn't find '");
                push_str(&mut s, k.as_str());
                push_str(&mut s, "' entry");
            },
            MetadataError::StringNotFound(k) => {
                push_str(&mut s, "Rustyscope Error couldn't find '");
                push_str(&mut s, k.as_str());
                push_str(&mut s, "' entry");
            },
            MetadataError::MissingDelimiter => {
                push_str(&mut s, "error inserting line - can't split without delimiter (: )");
            },
            MetadataError::UnexpectedFormat { key, text } => {
                push_str(&mut s, "Rustyscope error parsing '");
                push_str(&mut s, key.as_str());
                push_str(&mut s, "': '");
                push_str(&mut s, text.as_str());
                push_str(&mut s, "' was in an unexpected format.");
            },
            MetadataError::OutOfRange(k) => {
                push_str(&mut s, "Rustscope error parsing '");
                push_str(&mut s, k.as_str());
                push_str(&mut s, "': out of range integral type conversion attempted");
            },
            MetadataError::NotAnInteger { key, literal } => {
                push_str(&mut s, "Rustyscope error parsing '");
                push_str(&mut s, key.as_str());
                push_str(&mut s, "': '");
                let head = plain_pieces(s);
                let mut rest: Vec<TextPiece> = Vec::new();
                rest.push(TextPiece::Float(literal.clone()));
                rest.push(TextPiece::Plain(String::from_str("' should be an integer not a float.")));
                let v = join_pieces(head, rest);
                assert(pieces_view(v@) =~= metadata_error_text(self@));
                return v;
            },
            MetadataError::InvalidInteger(k) => {
                s = int_error_message(*k);
            },
            MetadataError::InvalidFloat(k) => {
                s = float_error_message(*k);
            },
        }
        assert(plain_text(s@) =~= metadata_error_text(self@));
        plain_pieces(s)
    }
}

} // verus!

verus! {

/// How a value is shown: an integer in decimal, a float as `f64` shows the number, text
/// as it is.
pub open spec fn value_text(v: ValueModel) -> PieceModel {
    match v {
        ValueModel::Integer(x) => PieceModel::Plain(decimal_text(x as int)),
        ValueModel::Float(lit) => PieceModel::Float(lit),
        ValueModel::Text(s) => PieceModel::Plain(s),
    }
}

impl MetadataValue {
    /// The value as shown text.
    pub fn text(&self) -> (s: TextPiece)
        ensures
            s@ == value_text(self@),
    {
        match self {
            MetadataValue::Integer(x) => TextPiece::Plain(i64_to_string(*x)),
            MetadataValue::Float(lit) => TextPiece::Float(lit.clone()),
            MetadataValue::String(s) => TextPiece::Plain(s.clone()),
        }
    }
}

} // verus!
