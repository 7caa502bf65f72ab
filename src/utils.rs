use sha2::{Digest, Sha256};
use vstd::prelude::*;

verus! {

/// Number of hex digits of the content digest that make up an identity.
pub const ID_LEN: usize = 24;

/// The SHA-256 digest of the UTF-8 encoding of `s`, in lowercase hex.
pub uninterp spec fn sha256_lower_hex(s: Seq<char>) -> Seq<char>;

/// A lowercase hex digit.
pub open spec fn is_hex_digit(c: char) -> bool {
    ('0' <= c && c <= '9') || ('a' <= c && c <= 'f')
}

/// Relies on sha2's `Sha256` (new, update, finalize) and on generic-array's
/// `LowerHex`, which writes two digits of `0123456789abcdef` per digest
/// byte: a 32-byte digest gives 64 characters.
#[verifier::external_body]
fn sha256_hex(input: &str) -> (r: String)
    ensures
        r@ == sha256_lower_hex(input@),
        r@.len() == 64,
        forall|i: int| 0 <= i < r@.len() ==> is_hex_digit(#[trigger] r@[i]),
{
    let mut hasher = Sha256::new();
    hasher.update(input.as_bytes());
    format!("{:x}", hasher.finalize())
}

/// The identity of a piece of content: the first digits of its digest.
pub open spec fn spec_hash(s: Seq<char>) -> Seq<char> {
    sha256_lower_hex(s).subrange(0, ID_LEN as int)
}

/// Identity of `input`: the first `ID_LEN` hex digits of its SHA-256 digest.
pub fn hash(input: &str) -> (r: String)
    ensures
        r@ == spec_hash(input@),
        r@.len() == ID_LEN,
        forall|i: int| 0 <= i < r@.len() ==> is_hex_digit(#[trigger] r@[i]),
{
    let full = sha256_hex(input);
    let prefix = full.as_str().substring_char(0, ID_LEN);
    let r = String::from_str(prefix);
    assert forall|i: int| 0 <= i < r@.len() implies is_hex_digit(#[trigger] r@[i]) by {
        assert(r@[i] == full@[i]);
    }
    r
}

/// Whether two strings hold the same characters.
pub fn same_text(a: &str, b: &str) -> (r: bool)
    ensures
        r == (a@ == b@),
{
    let n = a.unicode_len();
    if n != b.unicode_len() {
        return false;
    }
    let mut i: usize = 0;
    while i < n
        invariant
            n == a@.len(),
            n == b@.len(),
            i <= n,
            a@.subrange(0, i as int) == b@.subrange(0, i as int),
        decreases n - i,
    {
        if a.get_char(i) != b.get_char(i) {
            assert(a@[i as int] != b@[i as int]);
            return false;
        }
        assert(a@.subrange(0, i + 1) == a@.subrange(0, i as int).push(a@[i as int]));
        assert(b@.subrange(0, i + 1) == b@.subrange(0, i as int).push(b@[i as int]));
        i = i + 1;
    }
    assert(a@ == a@.subrange(0, n as int));
    assert(b@ == b@.subrange(0, n as int));
    true
}

} // verus!

verus! {

/// Height of a character cell in pixels, used where the terminal does not
/// report its size in pixels.
pub const DEFAULT_CHAR_HEIGHT: usize = 28;

/// Height of a character cell from the terminal's height in pixels and in
/// rows: their quotient where the pixel height is reported (more than 2)
/// and there are rows, else `DEFAULT_CHAR_HEIGHT`.
pub fn char_height_from(ypixel: u16, rows: u16) -> (r: usize)
    ensures
        ypixel > 2 && rows > 0 ==> r == ypixel / rows,
        !(ypixel > 2 && rows > 0) ==> r == DEFAULT_CHAR_HEIGHT,
{
    if ypixel > 2 && rows > 0 {
        (ypixel / rows) as usize
    } else {
        DEFAULT_CHAR_HEIGHT
    }
}

/// What precedes an equation in its LaTeX document.
pub const EQUATION_HEAD: &'static str = "\\documentclass[20pt, preview]{standalone}\n\\usepackage{amsmath}\\usepackage{amsfonts}\n\\begin{document}\n$$\n";

/// What follows an equation in its LaTeX document.
pub const EQUATION_TAIL: &'static str = "$$\n\\end{document}";

/// The LaTeX document that typesets `content` as a displayed equation.
pub fn equation_document(content: &str) -> (r: String)
    ensures
        r@ == EQUATION_HEAD@ + content@ + EQUATION_TAIL@,
{
    let mut doc = String::from_str(EQUATION_HEAD);
    doc.append(content);
    doc.append(EQUATION_TAIL);
    doc
}

} // verus!
