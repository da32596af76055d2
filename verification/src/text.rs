//! Character and string helpers shared by the header parser.

use vstd::prelude::*;

verus! {

/// Collects the characters of `s` into a vector.
pub fn chars_of(s: &str) -> (v: Vec<char>)
    ensures
        v@ == s@,
{
    let mut v: Vec<char> = Vec::new();
    for c in it: s.chars()
        invariant
            v@ == it.seq().take(it.index() as int),
    {
        v.push(c);
    }
    v
}

/// `String::push` from std: appends one character to the end of the string, as its
/// documentation states.
#[verifier::external_body]
pub(crate) fn push_char(s: &mut String, c: char)
    ensures
        final(s)@ == old(s)@.push(c),
{
    s.push(c);
}

/// Builds a `String` holding `chars[from..to]`.
pub fn string_from_chars(chars: &[char], from: usize, to: usize) -> (s: String)
    requires
        from <= to <= chars@.len(),
    ensures
        s@ == chars@.subrange(from as int, to as int),
{
    let mut s = String::new();
    let mut i = from;
    while i < to
        invariant
            from <= i <= to <= chars@.len(),
            s@ == chars@.subrange(from as int, i as int),
        decreases to - i,
    {
        push_char(&mut s, chars[i]);
        i = i + 1;
        assert(s@ =~= chars@.subrange(from as int, i as int));
    }
    s
}

/// ASCII lowercase of one character: `'A'..='Z'` map to `'a'..='z'`, every other
/// character is left as it is.
pub open spec fn ascii_lower_char(c: char) -> char {
    if 'A' <= c && c <= 'Z' {
        ((c as u32) + 32) as char
    } else {
        c
    }
}

/// ASCII lowercase of a character sequence, as `str::to_ascii_lowercase` computes it.
pub open spec fn ascii_lower(s: Seq<char>) -> Seq<char> {
    s.map_values(|c: char| ascii_lower_char(c))
}

/// Executable ASCII lowercase of one character.
pub fn to_ascii_lower_char(c: char) -> (r: char)
    ensures
        r == ascii_lower_char(c),
{
    if 'A' <= c && c <= 'Z' {
        let b: u8 = c as u8;
        let lower: u8 = b + 32;
        lower as char
    } else {
        c
    }
}

/// Whether `chars[from..]`, lowercased in ASCII, equals `lit`.
pub fn ascii_lower_suffix_eq(chars: &[char], from: usize, lit: &[char]) -> (r: bool)
    requires
        from <= chars@.len(),
    ensures
        r == (ascii_lower(chars@.subrange(from as int, chars@.len() as int)) == lit@),
{
    let len = chars.len();
    let n = len - from;
    if n != lit.len() {
        proof {
            assert(ascii_lower(chars@.subrange(from as int, chars@.len() as int)).len() != lit@.len());
        }
        return false;
    }
    let mut i: usize = 0;
    while i < n
        invariant
            n == chars@.len() - from,
            from + n == len,
            len == chars@.len(),
            n == lit@.len(),
            from <= chars@.len(),
            i <= n,
            forall|j: int| 0 <= j < i ==> ascii_lower_char(#[trigger] chars@[from + j]) == lit@[j],
        decreases n - i,
    {
        if to_ascii_lower_char(chars[from + i]) != lit[i] {
            proof {
                let t = ascii_lower(chars@.subrange(from as int, chars@.len() as int));
                assert(t[i as int] != lit@[i as int]);
            }
            return false;
        }
        i = i + 1;
    }
    proof {
        let t = ascii_lower(chars@.subrange(from as int, chars@.len() as int));
        assert(t =~= lit@) by {
            assert forall|j: int| 0 <= j < n implies t[j] == lit@[j] by {
                assert(ascii_lower_char(chars@[from + j]) == lit@[j]);
            }
        }
    }
    true
}

/// Builds the ASCII lowercase of `chars[from..]` as a `String`.
pub fn ascii_lower_suffix(chars: &[char], from: usize) -> (s: String)
    requires
        from <= chars@.len(),
    ensures
        s@ == ascii_lower(chars@.subrange(from as int, chars@.len() as int)),
{
    let mut s = String::new();
    let mut i = from;
    while i < chars.len()
        invariant
            from <= i <= chars@.len(),
            s@ == ascii_lower(chars@.subrange(from as int, i as int)),
        decreases chars@.len() - i,
    {
        let c = to_ascii_lower_char(chars[i]);
        push_char(&mut s, c);
        i = i + 1;
        assert(s@ =~= ascii_lower(chars@.subrange(from as int, i as int)));
    }
    s
}

} // verus!

verus! {

/// Appends `t` to `s`.
pub fn push_str(s: &mut String, t: &str)
    ensures
        final(s)@ == old(s)@ + t@,
{
    s.append(t);
}

} // verus!

verus! {

/// A piece of shown text: characters as they are, or a floating-point number, given by a
/// literal that `str::parse::<f64>` accepts and shown as `f64`'s `Display` shows the
/// number that the literal denotes (for the literal `1.50`, the text `1.5`; for `3.0`,
/// the text `3`).  That number is not computed in this library: whoever shows the piece
/// parses the literal.
#[derive(Debug, Clone)]
pub enum TextPiece {
    Plain(String),
    Float(String),
}

/// The model of a `TextPiece`.
pub enum PieceModel {
    Plain(Seq<char>),
    Float(Seq<char>),
}

impl View for TextPiece {
    type V = PieceModel;

    open spec fn view(&self) -> PieceModel {
        match self {
            TextPiece::Plain(s) => PieceModel::Plain(s@),
            TextPiece::Float(s) => PieceModel::Float(s@),
        }
    }
}

impl TextPiece {
    /// A copy of the piece.
    pub fn duplicate(&self) -> (r: TextPiece)
        ensures
            r@ == self@,
    {
        match self {
            TextPiece::Plain(s) => TextPiece::Plain(s.clone()),
            TextPiece::Float(s) => TextPiece::Float(s.clone()),
        }
    }
}

/// The models of a sequence of pieces; the text they show is their texts in order.
pub open spec fn pieces_view(v: Seq<TextPiece>) -> Seq<PieceModel> {
    v.map_values(|p: TextPiece| p@)
}

/// A text made of the one plain piece `s`.
pub open spec fn plain_text(s: Seq<char>) -> Seq<PieceModel> {
    seq![PieceModel::Plain(s)]
}

/// The pieces of a text that is `s` as it is.
pub fn plain_pieces(s: String) -> (v: Vec<TextPiece>)
    ensures
        pieces_view(v@) == plain_text(s@),
{
    let ghost text = s@;
    let mut v: Vec<TextPiece> = Vec::new();
    v.push(TextPiece::Plain(s));
    assert(pieces_view(v@) =~= plain_text(text));
    v
}

/// The pieces of `v` followed by those of `w`.
pub fn join_pieces(v: Vec<TextPiece>, w: Vec<TextPiece>) -> (r: Vec<TextPiece>)
    ensures
        pieces_view(r@) == pieces_view(v@) + pieces_view(w@),
{
    let mut r = v;
    let mut w = w;
    let ghost v0 = r@;
    let ghost w0 = w@;
    r.append(&mut w);
    assert(pieces_view(r@) =~= pieces_view(v0) + pieces_view(w0));
    r
}

} // verus!
