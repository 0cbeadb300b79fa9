//! The persistence codec: a grid is rendered to a line-oriented byte format
//! headed by a version tag, and parsed back from it. The format is
//!
//! ```text
//! <version digit> \n
//! <width> , <height> \n
//! then width*height cell records in row-major order, each either
//! "true, \n" (a filled cell, always blank) or "false,<byte>\n" (an open
//! cell holding one printable ASCII character)
//! ```
//!
//! Reading and writing the persistent resource itself is the host's job;
//! the codec maps between grids and bytes only.

use vstd::prelude::*;
use vstd::string::StrSliceExecFns;

use crate::consts::FILE_FORMAT_VERSION;
use crate::types::{cell_ok, Cell, Matrix};

verus! {

pub const NL: u8 = 10;

pub const COMMA: u8 = 44;

/// Why a byte sequence does not decode to a grid, or why the host could not
/// reach the persistent resource.
#[derive(Clone, Copy, PartialEq, Eq, Structural, Debug)]
pub enum CodecError {
    /// The version tag at the head is not the supported version.
    UnsupportedFormatVersion,
    /// A field of the persisted data is corrupt.
    MalformedRecord,
    /// The persisted dimensions are not both positive.
    InvalidDimensions,
    /// The persistent resource could not be read or written; reported by the
    /// host, never by the codec itself.
    IoFailure,
}

pub open spec fn is_digit(b: u8) -> bool {
    48 <= b <= 57
}

pub open spec fn all_digits(s: Seq<u8>) -> bool {
    forall|i: int| 0 <= i < s.len() ==> is_digit(#[trigger] s[i])
}

/// A printable ASCII byte: what an open cell may hold.
pub open spec fn is_value_byte(b: u8) -> bool {
    32 <= b <= 126
}

/// The number denoted by a big-endian sequence of decimal digit bytes.
pub open spec fn dec_val(s: Seq<u8>) -> int
    decreases s.len(),
{
    if s.len() == 0 {
        0
    } else {
        dec_val(s.drop_last()) * 10 + (s.last() - 48)
    }
}

/// The canonical decimal rendering of a number: most significant digit
/// first, no leading zeros.
pub open spec fn dec_of(n: nat) -> Seq<u8>
    decreases n,
{
    if n < 10 {
        seq![(48 + n) as u8]
    } else {
        dec_of(n / 10).push((48 + n % 10) as u8)
    }
}

/// How many leading decimal digit bytes the sequence starts with.
pub open spec fn digits_len(s: Seq<u8>) -> nat
    decreases s.len(),
{
    if s.len() == 0 || !is_digit(s[0]) {
        0
    } else {
        1 + digits_len(s.drop_first())
    }
}

/// The byte a cell's character is stored as.
pub open spec fn value_byte(c: char) -> u8 {
    (c as u32) as u8
}

/// One cell record: the filled flag as "true"/"false", a comma, the value
/// byte, and a newline. A filled cell is stored blank.
pub open spec fn encode_cell(c: Cell) -> Seq<u8> {
    if c.filled {
        seq![116u8, 114u8, 117u8, 101u8, COMMA, 32u8, NL]
    } else {
        seq![102u8, 97u8, 108u8, 115u8, 101u8, COMMA, value_byte(c.value), NL]
    }
}

pub open spec fn encode_cells(cs: Seq<Cell>) -> Seq<u8>
    decreases cs.len(),
{
    if cs.len() == 0 {
        Seq::empty()
    } else {
        encode_cell(cs[0]) + encode_cells(cs.drop_first())
    }
}

/// The full rendering of a grid: version line, dimension line, cell records.
pub open spec fn spec_save(width: nat, height: nat, cells: Seq<Cell>) -> Seq<u8> {
    seq![(48 + FILE_FORMAT_VERSION) as u8, NL] + dec_of(width) + seq![COMMA] + dec_of(height)
        + seq![NL] + encode_cells(cells)
}

/// The cell records of a grid of `n` cells, parsed strictly: exactly `n`
/// records, a filled record carries the blank value, and nothing follows.
pub open spec fn parse_cells(s: Seq<u8>, n: nat) -> Option<Seq<Cell>>
    decreases n,
{
    if n == 0 {
        if s.len() == 0 {
            Some(Seq::empty())
        } else {
            None
        }
    } else if s.len() >= 7 && s[0] == 116 && s[1] == 114 && s[2] == 117 && s[3] == 101 && s[4]
        == COMMA && s[5] == 32 && s[6] == NL {
        match parse_cells(s.skip(7), (n - 1) as nat) {
            Some(rest) => Some(seq![Cell { filled: true, value: ' ' }] + rest),
            None => None,
        }
    } else if s.len() >= 8 && s[0] == 102 && s[1] == 97 && s[2] == 108 && s[3] == 115 && s[4]
        == 101 && s[5] == COMMA && is_value_byte(s[6]) && s[7] == NL {
        match parse_cells(s.skip(8), (n - 1) as nat) {
            Some(rest) => Some(seq![Cell { filled: false, value: s[6] as char }] + rest),
            None => None,
        }
    } else {
        None
    }
}

/// What decoding the bytes after the version line yields: the dimension
/// line, strictly rendered (no leading zeros), then the cell records.
pub open spec fn spec_load_body(s: Seq<u8>) -> Result<(nat, nat, Seq<Cell>), CodecError> {
    let wlen = digits_len(s) as int;
    if wlen == 0 || (wlen > 1 && s[0] == 48) || wlen >= s.len() || s[wlen] != COMMA {
        Err(CodecError::MalformedRecord)
    } else {
        let w = dec_val(s.take(wlen));
        let rest = s.skip(wlen + 1);
        let hlen = digits_len(rest) as int;
        if hlen == 0 || (hlen > 1 && rest[0] == 48) || hlen >= rest.len() || rest[hlen] != NL {
            Err(CodecError::MalformedRecord)
        } else {
            let h = dec_val(rest.take(hlen));
            if w == 0 || h == 0 {
                Err(CodecError::InvalidDimensions)
            } else {
                match parse_cells(rest.skip(hlen + 1), (w * h) as nat) {
                    Some(cs) => Ok((w as nat, h as nat, cs)),
                    None => Err(CodecError::MalformedRecord),
                }
            }
        }
    }
}

/// What decoding a byte sequence yields: a version line holding exactly the
/// supported version digit, then the body. A version digit other than the
/// supported one is the unsupported-version failure; every other defect is a
/// malformed record, except dimensions of zero, which are rejected as
/// invalid dimensions.
pub open spec fn spec_load(s: Seq<u8>) -> Result<(nat, nat, Seq<Cell>), CodecError> {
    if s.len() < 2 || !is_digit(s[0]) || s[1] != NL {
        Err(CodecError::MalformedRecord)
    } else if s[0] != 48 + FILE_FORMAT_VERSION {
        Err(CodecError::UnsupportedFormatVersion)
    } else {
        spec_load_body(s.skip(2))
    }
}

/// The canonical rendering of `n` is all digits, has no leading zero, and
/// denotes `n`.
pub proof fn lemma_dec_of(n: nat)
    ensures
        dec_of(n).len() >= 1,
        all_digits(dec_of(n)),
        dec_val(dec_of(n)) == n,
        n > 0 ==> dec_of(n)[0] != 48,
        dec_of(n).len() > 1 ==> dec_of(n)[0] != 48,
    decreases n,
{
    if n < 10 {
        assert(dec_of(n) =~= seq![(48 + n) as u8]);
        assert(dec_of(n).drop_last() =~= Seq::<u8>::empty());
        assert(dec_val(dec_of(n)) == dec_val(Seq::<u8>::empty()) * 10 + ((48 + n) as u8 - 48));
    } else {
        lemma_dec_of(n / 10);
        let d = dec_of(n / 10);
        let b = (48 + n % 10) as u8;
        assert(b == 48 + n % 10);
        assert(d.push(b).drop_last() =~= d);
        assert(d.push(b).last() == b);
        assert(dec_val(dec_of(n)) == dec_val(d) * 10 + (n % 10));
        assert(n / 10 * 10 + n % 10 == n) by (nonlinear_arith);
        assert forall|i: int| 0 <= i < dec_of(n).len() implies is_digit(#[trigger] dec_of(n)[i]) by {
            if i < d.len() {
                assert(is_digit(d[i]));
            }
        }
    }
}

/// Appending to a digit run extends `digits_len` while the appended part
/// starts with a non-digit.
pub proof fn lemma_digits_len_concat(d: Seq<u8>, rest: Seq<u8>)
    requires
        all_digits(d),
        rest.len() > 0,
        !is_digit(rest[0]),
    ensures
        digits_len(d + rest) == d.len(),
    decreases d.len(),
{
    if d.len() == 0 {
        assert(d + rest =~= rest);
    } else {
        assert(is_digit(d[0]));
        assert((d + rest)[0] == d[0]);
        lemma_digits_len_concat(d.drop_first(), rest);
        assert((d + rest).drop_first() =~= d.drop_first() + rest);
    }
}

/// A digit run is never longer than the sequence holding it.
pub proof fn lemma_digits_len_le(s: Seq<u8>)
    ensures
        digits_len(s) <= s.len(),
    decreases s.len(),
{
    if s.len() > 0 && is_digit(s[0]) {
        lemma_digits_len_le(s.drop_first());
    }
}

/// Digit sequences denote non-negative numbers.
pub proof fn lemma_dec_val_nonneg(s: Seq<u8>)
    requires
        all_digits(s),
    ensures
        dec_val(s) >= 0,
    decreases s.len(),
{
    if s.len() > 0 {
        assert(all_digits(s.drop_last())) by {
            assert(forall|i: int|
                0 <= i < s.drop_last().len() ==> #[trigger] s.drop_last()[i] == s[i]);
        }
        lemma_dec_val_nonneg(s.drop_last());
        assert(is_digit(s.last()));
    }
}

/// Encoding one more cell appends one record.
pub proof fn lemma_encode_cells_push(cs: Seq<Cell>, c: Cell)
    ensures
        encode_cells(cs.push(c)) == encode_cells(cs) + encode_cell(c),
    decreases cs.len(),
{
    if cs.len() == 0 {
        assert(cs.push(c)[0] == c);
        assert(cs.push(c).drop_first() =~= Seq::<Cell>::empty());
        assert(encode_cells(cs.push(c)) == encode_cell(c) + encode_cells(Seq::<Cell>::empty()));
        assert(encode_cell(c) + Seq::<u8>::empty() =~= encode_cell(c));
        assert(encode_cells(cs) + encode_cell(c) =~= encode_cell(c));
    } else {
        lemma_encode_cells_push(cs.drop_first(), c);
        assert(cs.push(c).drop_first() =~= cs.drop_first().push(c));
        assert(cs.push(c)[0] == cs[0]);
        assert(encode_cell(cs[0]) + (encode_cells(cs.drop_first()) + encode_cell(c)) =~= (
        encode_cell(cs[0]) + encode_cells(cs.drop_first())) + encode_cell(c));
    }
}

/// Successfully parsed cell records take at least seven bytes each.
pub proof fn lemma_parse_cells_min_len(s: Seq<u8>, n: nat)
    requires
        parse_cells(s, n) is Some,
    ensures
        s.len() >= 7 * n,
    decreases n,
{
    if n > 0 {
        if s.len() >= 7 && s[0] == 116 && s[1] == 114 && s[2] == 117 && s[3] == 101 && s[4]
            == COMMA && s[5] == 32 && s[6] == NL {
            lemma_parse_cells_min_len(s.skip(7), (n - 1) as nat);
        } else {
            lemma_parse_cells_min_len(s.skip(8), (n - 1) as nat);
        }
    }
}

/// Every cell coming out of the record parser is valid, and there are
/// exactly as many as asked for.
pub proof fn lemma_parse_cells_ok(s: Seq<u8>, n: nat)
    requires
        parse_cells(s, n) is Some,
    ensures
        parse_cells(s, n) matches Some(cs) ==> {
            &&& cs.len() == n
            &&& forall|i: int| 0 <= i < cs.len() ==> cell_ok(#[trigger] cs[i])
        },
    decreases n,
{
    if n > 0 {
        if s.len() >= 7 && s[0] == 116 && s[1] == 114 && s[2] == 117 && s[3] == 101 && s[4]
            == COMMA && s[5] == 32 && s[6] == NL {
            lemma_parse_cells_ok(s.skip(7), (n - 1) as nat);
        } else {
            lemma_parse_cells_ok(s.skip(8), (n - 1) as nat);
        }
    }
}

/// Render `n` in decimal, most significant digit first.
fn dec_render(n: usize) -> (v: Vec<u8>)
    ensures
        v@ == dec_of(n as nat),
    decreases n,
{
    if n < 10 {
        let mut v: Vec<u8> = Vec::new();
        v.push(48 + (n as u8));
        assert(v@ =~= dec_of(n as nat));
        v
    } else {
        let mut v = dec_render(n / 10);
        v.push(48 + ((n % 10) as u8));
        assert(v@ =~= dec_of(n as nat));
        v
    }
}

pub open spec fn is_digit_char(c: char) -> bool {
    '0' <= c <= '9'
}

pub open spec fn all_digit_chars(s: Seq<char>) -> bool {
    forall|i: int| 0 <= i < s.len() ==> is_digit_char(#[trigger] s[i])
}

/// The number denoted by a sequence of decimal digit characters.
pub open spec fn dec_val_chars(s: Seq<char>) -> int
    decreases s.len(),
{
    if s.len() == 0 {
        0
    } else {
        dec_val_chars(s.drop_last()) * 10 + (s.last() as int - 48)
    }
}

/// Digit character sequences denote non-negative numbers.
pub proof fn lemma_dec_val_chars_nonneg(s: Seq<char>)
    requires
        all_digit_chars(s),
    ensures
        dec_val_chars(s) >= 0,
    decreases s.len(),
{
    if s.len() > 0 {
        assert(all_digit_chars(s.drop_last())) by {
            assert(forall|i: int|
                0 <= i < s.drop_last().len() ==> #[trigger] s.drop_last()[i] == s[i]);
        }
        lemma_dec_val_chars_nonneg(s.drop_last());
        assert(is_digit_char(s.last()));
    }
}

/// How text parses as a 32-bit integer: an optional sign, then at least one
/// digit (leading zeros allowed), denoting a value in the type's range.
pub open spec fn spec_parse_i32(s: Seq<char>) -> Option<int> {
    let digits = if s.len() > 0 && (s[0] == '+' || s[0] == '-') {
        s.drop_first()
    } else {
        s
    };
    let sign: int = if s.len() > 0 && s[0] == '-' {
        -1
    } else {
        1
    };
    if digits.len() == 0 || !all_digit_chars(digits) {
        None
    } else {
        let v = sign * dec_val_chars(digits);
        if v < i32::MIN || i32::MAX < v {
            None
        } else {
            Some(v)
        }
    }
}

/// Read a 32-bit integer from text, zero when the text does not parse as
/// one.
#[verifier::loop_isolation(false)]
pub fn string_to_i32(s: &String) -> (r: i32)
    ensures
        r as int == match spec_parse_i32(s@) {
            Some(v) => v,
            None => 0,
        },
{
    let st = s.as_str();
    let n = st.unicode_len();
    let mut start: usize = 0;
    let mut neg = false;
    if n > 0 {
        let c0 = st.get_char(0);
        if c0 == '+' {
            start = 1;
        } else if c0 == '-' {
            start = 1;
            neg = true;
        }
    }
    let ghost digits = if s@.len() > 0 && (s@[0] == '+' || s@[0] == '-') {
        s@.drop_first()
    } else {
        s@
    };
    proof {
        assert(digits =~= s@.subrange(start as int, n as int));
    }
    if start >= n {
        return 0;
    }
    let mut i = start;
    let mut acc: u64 = 0;
    while i < n
        invariant
            start <= i <= n,
            all_digit_chars(s@.subrange(start as int, i as int)),
            acc <= 0xFFFF_FFFFu64 * 10 + 9,
            acc == dec_val_chars(s@.subrange(start as int, i as int)) || (acc > 0xFFFF_FFFF
                && dec_val_chars(s@.subrange(start as int, i as int)) >= acc),
        decreases n - i,
    {
        let c = st.get_char(i);
        if !(c >= '0' && c <= '9') {
            proof {
                assert(digits[i - start] == s@[i as int]);
                assert(!all_digit_chars(digits));
            }
            return 0;
        }
        let d = ((c as u32) - 48) as u64;
        let ghost prefix = s@.subrange(start as int, i as int);
        let ghost prefix2 = s@.subrange(start as int, i as int + 1);
        proof {
            assert(prefix2 =~= prefix.push(s@[i as int]));
            assert(prefix2.drop_last() =~= prefix);
            assert(dec_val_chars(prefix2) == dec_val_chars(prefix) * 10 + d);
            lemma_dec_val_chars_nonneg(prefix);
        }
        if acc <= 0xFFFF_FFFF {
            acc = acc * 10 + d;
        } else {
            proof {
                assert(dec_val_chars(prefix) * 10 >= dec_val_chars(prefix));
            }
        }
        i = i + 1;
    }
    proof {
        assert(digits =~= s@.subrange(start as int, n as int));
        assert(all_digit_chars(digits));
        lemma_dec_val_chars_nonneg(digits);
    }
    if neg {
        proof {
            assert(s@.len() > 0 && s@[0] == '-');
            assert(acc <= 0x8000_0000 ==> acc == dec_val_chars(digits));
        }
        if acc <= 0x8000_0000 {
            proof {
                assert(spec_parse_i32(s@) == Some(-1 * dec_val_chars(digits)));
            }
            let r = -(acc as i64);
            proof {
                assert(r as int == -1 * dec_val_chars(digits));
            }
            return r as i32;
        } else {
            proof {
                assert(dec_val_chars(digits) > 0x8000_0000);
                assert(digits.len() != 0);
                assert(-1 * dec_val_chars(digits) < i32::MIN);
                assert(spec_parse_i32(s@) is None);
            }
            return 0;
        }
    } else {
        if acc <= 0x7FFF_FFFF {
            return acc as i32;
        } else {
            return 0;
        }
    }
}

/// Read a boolean from text: exactly the word "true" is true; everything
/// else, the word "false" included, reads as false.
pub fn string_to_bool(s: &String) -> (r: bool)
    ensures
        r == (s@ == "true"@),
{
    proof {
        reveal_strlit("true");
    }
    let st = s.as_str();
    let n = st.unicode_len();
    if n != 4 {
        return false;
    }
    let r = st.get_char(0) == 't' && st.get_char(1) == 'r' && st.get_char(2) == 'u'
        && st.get_char(3) == 'e';
    proof {
        if r {
            assert(s@ =~= "true"@);
        }
    }
    r
}

/// Read a single character from text: the character of a one-character
/// string, blank for anything else.
pub fn string_to_char(s: &String) -> (r: char)
    ensures
        r == (if s@.len() == 1 {
            s@[0]
        } else {
            ' '
        }),
{
    let st = s.as_str();
    if st.unicode_len() == 1 {
        st.get_char(0)
    } else {
        ' '
    }
}

/// Whether the byte at position `i` is a decimal digit.
fn digit_at(bytes: &Vec<u8>, i: usize) -> (r: bool)
    requires
        i < bytes@.len(),
    ensures
        r == is_digit(bytes@[i as int]),
{
    let b = bytes[i];
    48 <= b && b <= 57
}

/// Scan the run of digit bytes starting at `start`: where it ends, and its
/// value when that value fits in `usize`.
#[verifier::loop_isolation(false)]
fn parse_number(bytes: &Vec<u8>, start: usize) -> (r: (usize, Option<usize>))
    requires
        start <= bytes@.len(),
    ensures
        r.0 == start + digits_len(bytes@.skip(start as int)),
        start <= r.0 <= bytes@.len(),
        all_digits(bytes@.subrange(start as int, r.0 as int)),
        match r.1 {
            Some(v) => v == dec_val(bytes@.subrange(start as int, r.0 as int)),
            None => dec_val(bytes@.subrange(start as int, r.0 as int)) > usize::MAX,
        },
{
    let len = bytes.len();
    let mut i = start;
    let mut acc: usize = 0;
    let mut over = false;
    while i < len && digit_at(bytes, i)
        invariant
            start <= i <= len,
            all_digits(bytes@.subrange(start as int, i as int)),
            digits_len(bytes@.skip(start as int)) == (i - start) + digits_len(
                bytes@.skip(i as int),
            ),
            !over ==> acc == dec_val(bytes@.subrange(start as int, i as int)),
            over ==> dec_val(bytes@.subrange(start as int, i as int)) > usize::MAX,
        decreases len - i,
    {
        let b = bytes[i];
        let d = (b - 48) as usize;
        let ghost prefix = bytes@.subrange(start as int, i as int);
        let ghost prefix2 = bytes@.subrange(start as int, i as int + 1);
        proof {
            assert(prefix2 =~= prefix.push(bytes@[i as int]));
            assert(prefix2.drop_last() =~= prefix);
            assert(dec_val(prefix2) == dec_val(prefix) * 10 + d);
            lemma_dec_val_nonneg(prefix);
            assert(bytes@.skip(i as int).drop_first() =~= bytes@.skip(i as int + 1));
            assert(digits_len(bytes@.skip(i as int)) == 1 + digits_len(
                bytes@.skip(i as int + 1),
            ));
        }
        if !over {
            let limit = (usize::MAX - d) / 10;
            if acc <= limit {
                proof {
                    assert(10 * limit <= usize::MAX - d);
                    assert(10 * acc <= 10 * limit);
                }
                acc = acc * 10 + d;
            } else {
                proof {
                    assert(10 * limit + 10 > usize::MAX - d);
                    assert(10 * acc >= 10 * (limit + 1));
                    assert(dec_val(prefix2) > usize::MAX);
                }
                over = true;
            }
        } else {
            proof {
                assert(dec_val(prefix) * 10 >= dec_val(prefix));
                assert(dec_val(prefix2) > usize::MAX);
            }
        }
        i = i + 1;
    }
    proof {
        if i < len {
            assert(bytes@.skip(i as int)[0] == bytes@[i as int]);
        }
        assert(digits_len(bytes@.skip(i as int)) == 0);
    }
    (i, if over {
        None
    } else {
        Some(acc)
    })
}

/// Parse exactly `n` cell records starting at `start`, with nothing after
/// them; the strict counterpart of `parse_cells`.
#[verifier::loop_isolation(false)]
fn parse_records(bytes: &Vec<u8>, start: usize, n: usize) -> (r: Option<Vec<Cell>>)
    requires
        start <= bytes@.len(),
    ensures
        match r {
            Some(cells) => parse_cells(bytes@.skip(start as int), n as nat) == Some(cells@),
            None => parse_cells(bytes@.skip(start as int), n as nat) is None,
        },
{
    let len = bytes.len();
    let mut cells: Vec<Cell> = Vec::new();
    let mut pos = start;
    let mut k: usize = 0;
    while k < n
        invariant
            k <= n,
            cells@.len() == k,
            start <= pos <= len,
            forall|t: Seq<Cell>|
                parse_cells(bytes@.skip(pos as int), (n - k) as nat) == Some(t)
                    ==> parse_cells(bytes@.skip(start as int), n as nat) == Some(cells@ + t),
            parse_cells(bytes@.skip(pos as int), (n - k) as nat) is None ==> parse_cells(
                bytes@.skip(start as int),
                n as nat,
            ) is None,
        decreases n - k,
    {
        let rem_len = len - pos;
        let ghost rem = bytes@.skip(pos as int);
        let ghost m = (n - k) as nat;
        if rem_len >= 7 && bytes[pos] == 116 && bytes[pos + 1] == 114 && bytes[pos + 2] == 117
            && bytes[pos + 3] == 101 && bytes[pos + 4] == COMMA && bytes[pos + 5] == 32
            && bytes[pos + 6] == NL {
            let c = Cell { filled: true, value: ' ' };
            proof {
                assert(rem.skip(7) =~= bytes@.skip(pos as int + 7));
                match parse_cells(bytes@.skip(pos as int + 7), (m - 1) as nat) {
                    Some(t) => {
                        assert(parse_cells(rem, m) == Some(seq![c] + t));
                        assert(cells@ + (seq![c] + t) =~= cells@.push(c) + t);
                    },
                    None => {
                        assert(parse_cells(rem, m) is None);
                    },
                }
            }
            cells.push(c);
            pos = pos + 7;
        } else if rem_len >= 8 && bytes[pos] == 102 && bytes[pos + 1] == 97 && bytes[pos + 2]
            == 108 && bytes[pos + 3] == 115 && bytes[pos + 4] == 101 && bytes[pos + 5] == COMMA
            && 32 <= bytes[pos + 6] && bytes[pos + 6] <= 126 && bytes[pos + 7] == NL {
            let vb = bytes[pos + 6];
            let c = Cell { filled: false, value: vb as char };
            proof {
                assert(rem.skip(8) =~= bytes@.skip(pos as int + 8));
                assert(rem[6] == vb);
                match parse_cells(bytes@.skip(pos as int + 8), (m - 1) as nat) {
                    Some(t) => {
                        assert(parse_cells(rem, m) == Some(seq![c] + t));
                        assert(cells@ + (seq![c] + t) =~= cells@.push(c) + t);
                    },
                    None => {
                        assert(parse_cells(rem, m) is None);
                    },
                }
            }
            cells.push(c);
            pos = pos + 8;
        } else {
            proof {
                assert(parse_cells(rem, m) is None);
            }
            return None;
        }
        k = k + 1;
    }
    if pos != len {
        proof {
            assert(bytes@.skip(pos as int).len() > 0);
            assert(parse_cells(bytes@.skip(pos as int), 0) is None);
        }
        return None;
    }
    proof {
        assert(bytes@.skip(pos as int).len() == 0);
        assert(parse_cells(bytes@.skip(pos as int), 0) == Some(Seq::<Cell>::empty()));
        assert(cells@ + Seq::<Cell>::empty() =~= cells@);
    }
    Some(cells)
}

/// Append one cell's record to the rendering.
fn push_cell_record(out: &mut Vec<u8>, cell: &Cell)
    requires
        cell_ok(*cell),
    ensures
        final(out)@ == old(out)@ + encode_cell(*cell),
{
    if cell.filled {
        out.push(116);
        out.push(114);
        out.push(117);
        out.push(101);
        out.push(COMMA);
        out.push(32);
        out.push(NL);
    } else {
        out.push(102);
        out.push(97);
        out.push(108);
        out.push(115);
        out.push(101);
        out.push(COMMA);
        out.push((cell.value as u32) as u8);
        out.push(NL);
    }
    assert(out@ =~= old(out)@ + encode_cell(*cell));
}

/// Render a grid into the persistence format. The host writes the bytes to
/// the persistent resource and reports a failure there itself.
#[verifier::loop_isolation(false)]
pub fn save(m: &Matrix) -> (out: Vec<u8>)
    requires
        m.wf(),
    ensures
        out@ == spec_save(m@.width, m@.height, m@.cells),
{
    let w = m.width();
    let h = m.height();
    let mut out: Vec<u8> = Vec::new();
    out.push(48 + FILE_FORMAT_VERSION);
    out.push(NL);
    let mut ws = dec_render(w);
    out.append(&mut ws);
    out.push(COMMA);
    let mut hs = dec_render(h);
    out.append(&mut hs);
    out.push(NL);
    let ghost header = seq![(48 + FILE_FORMAT_VERSION) as u8, NL] + dec_of(m@.width) + seq![COMMA]
        + dec_of(m@.height) + seq![NL];
    assert(out@ =~= header);
    let mut y: usize = 0;
    while y < h
        invariant
            y <= h,
            out@ == header + encode_cells(m@.cells.take(y as int * w as int)),
        decreases h - y,
    {
        let mut x: usize = 0;
        while x < w
            invariant
                x <= w,
                y < h,
                out@ == header + encode_cells(m@.cells.take(y as int * w as int + x as int)),
            decreases w - x,
        {
            proof {
                crate::types::lemma_linear_index_in_bounds(
                    x as int,
                    y as int,
                    w as int,
                    h as int,
                );
            }
            let ghost i = y as int * w as int + x as int;
            let ghost prefix = m@.cells.take(i);
            let cell = m.get_cell(x, y);
            proof {
                assert(cell_ok(m@.cells[i]));
            }
            push_cell_record(&mut out, cell);
            proof {
                assert(cell_ok(m@.cells[i]));
                lemma_encode_cells_push(prefix, m@.cells[i]);
                assert(m@.cells.take(i + 1) =~= prefix.push(m@.cells[i]));
                assert(out@ =~= header + encode_cells(m@.cells.take(i + 1)));
            }
            x = x + 1;
        }
        proof {
            assert(y as int * w as int + w as int == (y + 1) as int * w as int)
                by (nonlinear_arith);
        }
        y = y + 1;
    }
    proof {
        assert(h as int * w as int == m@.width * m@.height) by (nonlinear_arith)
            requires
                w == m@.width,
                h == m@.height,
        ;
        assert(m@.cells.take(h as int * w as int) =~= m@.cells);
    }
    out
}

/// Decode a byte sequence into a grid: exactly `spec_load` of the bytes.
/// The host reads the bytes from the persistent resource; a failure there is
/// its own `IoFailure`, which this decoder never returns.
#[verifier::rlimit(30)]
pub fn load(bytes: &Vec<u8>) -> (r: Result<Matrix, CodecError>)
    ensures
        match r {
            Ok(m) => {
                &&& m.wf()
                &&& spec_load(bytes@) == Ok::<(nat, nat, Seq<Cell>), CodecError>(
                    (m@.width, m@.height, m@.cells),
                )
            },
            Err(e) => {
                &&& spec_load(bytes@) == Err::<(nat, nat, Seq<Cell>), CodecError>(e)
                &&& e != CodecError::IoFailure
            },
        },
{
    let len = bytes.len();
    if len < 2 {
        return Err(CodecError::MalformedRecord);
    }
    let b0 = bytes[0];
    if !(48 <= b0 && b0 <= 57) || bytes[1] != NL {
        return Err(CodecError::MalformedRecord);
    }
    if b0 != 48 + FILE_FORMAT_VERSION {
        return Err(CodecError::UnsupportedFormatVersion);
    }
    let ghost s2 = bytes@.skip(2);

    // the width, up to the comma
    let (wend, wval) = parse_number(bytes, 2);
    let wlen = wend - 2;
    proof {
        assert(s2.take(wlen as int) =~= bytes@.subrange(2, wend as int));
        assert(digits_len(s2) == wlen);
    }
    if wlen == 0 || (wlen > 1 && bytes[2] == 48) || wend >= len || bytes[wend] != COMMA {
        proof {
            if wend < len {
                assert(s2[wlen as int] == bytes@[wend as int]);
            }
            assert(spec_load_body(s2) == Err::<(nat, nat, Seq<Cell>), CodecError>(
                CodecError::MalformedRecord,
            ));
        }
        return Err(CodecError::MalformedRecord);
    }
    proof {
        assert(s2[wlen as int] == bytes@[wend as int]);
    }

    // the height, up to the newline
    let (hend, hval) = parse_number(bytes, wend + 1);
    let hlen = hend - (wend + 1);
    let ghost rest = s2.skip(wlen as int + 1);
    proof {
        assert(rest =~= bytes@.skip(wend as int + 1));
        assert(rest.take(hlen as int) =~= bytes@.subrange(wend as int + 1, hend as int));
        assert(digits_len(rest) == hlen);
    }
    if hlen == 0 || (hlen > 1 && bytes[wend + 1] == 48) || hend >= len || bytes[hend] != NL {
        proof {
            if hend < len {
                assert(rest[hlen as int] == bytes@[hend as int]);
            }
        }
        return Err(CodecError::MalformedRecord);
    }
    proof {
        assert(rest[hlen as int] == bytes@[hend as int]);
    }
    let ghost w_spec = dec_val(s2.take(wlen as int));
    let ghost h_spec = dec_val(rest.take(hlen as int));

    // dimensions must be positive
    let w_zero = match wval {
        Some(v) => v == 0,
        None => false,
    };
    let h_zero = match hval {
        Some(v) => v == 0,
        None => false,
    };
    proof {
        lemma_dec_val_nonneg(s2.take(wlen as int));
        lemma_dec_val_nonneg(rest.take(hlen as int));
    }
    if w_zero || h_zero {
        return Err(CodecError::InvalidDimensions);
    }

    // the cell records; a count beyond `usize` cannot fit in the bytes
    let ghost body = rest.skip(hlen as int + 1);
    proof {
        assert(body =~= bytes@.skip(hend as int + 1));
    }
    let (w, h) = match (wval, hval) {
        (Some(w), Some(h)) => (w, h),
        _ => {
            proof {
                assert(w_spec * h_spec > usize::MAX) by (nonlinear_arith)
                    requires
                        w_spec >= 1,
                        h_spec >= 1,
                        w_spec > usize::MAX || h_spec > usize::MAX,
                ;
                lemma_cell_count_too_large(body, w_spec, h_spec);
            }
            return Err(CodecError::MalformedRecord);
        },
    };
    let cell_count = match w.checked_mul(h) {
        Some(n) => n,
        None => {
            proof {
                lemma_cell_count_too_large(body, w_spec, h_spec);
            }
            return Err(CodecError::MalformedRecord);
        },
    };
    match parse_records(bytes, hend + 1, cell_count) {
        Some(cells) => {
            proof {
                lemma_parse_cells_ok(body, (w_spec * h_spec) as nat);
            }
            Ok(Matrix::from_parts(w, h, cells))
        },
        None => Err(CodecError::MalformedRecord),
    }
}

/// The record parser inverts the record encoder on valid cells.
pub proof fn lemma_parse_cells_of_encode(cs: Seq<Cell>)
    requires
        forall|i: int| 0 <= i < cs.len() ==> cell_ok(#[trigger] cs[i]),
    ensures
        parse_cells(encode_cells(cs), cs.len()) == Some(cs),
    decreases cs.len(),
{
    if cs.len() == 0 {
        assert(encode_cells(cs).len() == 0);
    } else {
        let c = cs[0];
        let rest = cs.drop_first();
        assert(cell_ok(c));
        assert forall|i: int| 0 <= i < rest.len() implies cell_ok(#[trigger] rest[i]) by {
            assert(cell_ok(cs[i + 1]));
        }
        lemma_parse_cells_of_encode(rest);
        let e = encode_cells(cs);
        assert(e == encode_cell(c) + encode_cells(rest));
        if c.filled {
            assert(e.skip(7) =~= encode_cells(rest));
            assert(c.value == ' ');
            assert(seq![Cell { filled: true, value: ' ' }] + rest =~= cs);
        } else {
            assert(e.skip(8) =~= encode_cells(rest));
            assert(e[0] == 102);
            assert(e[6] == value_byte(c.value));
            assert(' ' as u32 == 32 && '~' as u32 == 126);
            assert(32 <= c.value as u32 <= 126);
            assert(value_byte(c.value) == c.value as u32);
            assert(is_value_byte(e[6]));
            assert(e[6] as char == c.value);
            assert(seq![Cell { filled: false, value: e[6] as char }] + rest =~= cs);
        }
    }
}

/// Saving and loading round-trip: decoding the rendering of any well-formed
/// grid yields exactly that grid.
pub proof fn lemma_save_load_round_trip(width: nat, height: nat, cells: Seq<Cell>)
    requires
        0 < width,
        0 < height,
        cells.len() == width * height,
        forall|i: int| 0 <= i < cells.len() ==> cell_ok(#[trigger] cells[i]),
    ensures
        spec_load(spec_save(width, height, cells)) == Ok::<(nat, nat, Seq<Cell>), CodecError>(
            (width, height, cells),
        ),
{
    let d1 = dec_of(width);
    let d2 = dec_of(height);
    let ec = encode_cells(cells);
    lemma_dec_of(width);
    lemma_dec_of(height);
    let s = spec_save(width, height, cells);
    assert(s[0] == 48 + FILE_FORMAT_VERSION);
    assert(s[1] == NL);
    assert(s.len() >= 2);
    let s2 = s.skip(2);
    let rest1 = seq![COMMA] + d2 + seq![NL] + ec;
    assert(s2 =~= d1 + rest1);
    assert(rest1[0] == COMMA);
    lemma_digits_len_concat(d1, rest1);
    let wlen = d1.len() as int;
    assert(digits_len(s2) == wlen);
    assert(s2.take(wlen) =~= d1);
    assert(s2[wlen] == COMMA);
    assert(s2[0] == d1[0]);
    assert(dec_val(s2.take(wlen)) == width);
    let rest = s2.skip(wlen + 1);
    let rest2 = seq![NL] + ec;
    assert(rest =~= d2 + rest2);
    assert(rest2[0] == NL);
    lemma_digits_len_concat(d2, rest2);
    let hlen = d2.len() as int;
    assert(digits_len(rest) == hlen);
    assert(rest.take(hlen) =~= d2);
    assert(rest[hlen] == NL);
    assert(rest[0] == d2[0]);
    assert(dec_val(rest.take(hlen)) == height);
    let body = rest.skip(hlen + 1);
    assert(body =~= ec);
    lemma_parse_cells_of_encode(cells);
    assert(parse_cells(body, (width * height) as nat) == Some(cells));
    assert(spec_load_body(s2) == Ok::<(nat, nat, Seq<Cell>), CodecError>(
        (width, height, cells),
    ));
}

/// A record section holding fewer bytes than seven per cell cannot parse.
proof fn lemma_cell_count_too_large(body: Seq<u8>, w: int, h: int)
    requires
        w >= 1,
        h >= 1,
        w * h > usize::MAX,
        body.len() <= usize::MAX,
    ensures
        parse_cells(body, (w * h) as nat) is None,
{
    if parse_cells(body, (w * h) as nat) is Some {
        lemma_parse_cells_min_len(body, (w * h) as nat);
        assert(7 * (w * h) >= w * h) by (nonlinear_arith)
            requires
                w * h >= 0,
        ;
        assert(false);
    }
}

} // verus!
