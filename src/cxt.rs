use vstd::prelude::*;
use vstd::string::{is_ascii, StringSliceAdditionalSpecFns};
use crate::bits::Bits;
use crate::context::FormalContext;
use crate::rows::{matrix_of, rows_have_len};

verus! {

/// Why a text in the `.cxt` format was rejected; each variant carries the
/// index (from 0) of the offending line.
#[derive(Debug, Clone, Copy, PartialEq, Eq)]
pub enum CxtError {
    /// The text ends before this line.
    MissingLine(usize),
    /// This line should be the header `B` (line 0) or blank (lines 1 and 4).
    BadHeader(usize),
    /// This line should hold a count of objects or of attributes.
    BadCount(usize),
    /// This matrix row holds a character other than `X` and `.`.
    BadCharacter(usize),
    /// This matrix row does not have one character per attribute.
    BadRowLength(usize),
}

/// A character with the Unicode property `White_Space`, as `char::is_whitespace` tests.
pub open spec fn is_white_space(c: char) -> bool {
    ||| '\u{9}' <= c <= '\u{d}'
    ||| c == ' '
    ||| c == '\u{85}'
    ||| c == '\u{a0}'
    ||| c == '\u{1680}'
    ||| '\u{2000}' <= c <= '\u{200a}'
    ||| c == '\u{2028}'
    ||| c == '\u{2029}'
    ||| c == '\u{202f}'
    ||| c == '\u{205f}'
    ||| c == '\u{3000}'
}

/// `s` without its leading white space.
pub open spec fn trim_start(s: Seq<char>) -> Seq<char>
    decreases s.len(),
{
    if s.len() > 0 && is_white_space(s[0]) {
        trim_start(s.drop_first())
    } else {
        s
    }
}

/// `s` without its trailing white space.
pub open spec fn trim_end(s: Seq<char>) -> Seq<char>
    decreases s.len(),
{
    if s.len() > 0 && is_white_space(s.last()) {
        trim_end(s.drop_last())
    } else {
        s
    }
}

/// `s` without leading and trailing white space.
pub open spec fn trimmed(s: Seq<char>) -> Seq<char> {
    trim_end(trim_start(s))
}

/// The value of a decimal digit.
pub open spec fn digit_value(c: char) -> nat {
    if c == '1' {
        1
    } else if c == '2' {
        2
    } else if c == '3' {
        3
    } else if c == '4' {
        4
    } else if c == '5' {
        5
    } else if c == '6' {
        6
    } else if c == '7' {
        7
    } else if c == '8' {
        8
    } else if c == '9' {
        9
    } else {
        0
    }
}

/// The number that the digits `s` spell, most significant first.
pub open spec fn decimal_value(s: Seq<char>) -> nat
    decreases s.len(),
{
    if s.len() == 0 {
        0
    } else {
        decimal_value(s.drop_last()) * 10 + digit_value(s.last())
    }
}

/// `s` is a non-empty run of decimal digits.
pub open spec fn all_digits(s: Seq<char>) -> bool {
    s.len() > 0 && forall|k: int| 0 <= k < s.len() ==> digits().contains(#[trigger] s[k])
}

/// What parsing `s` as a `usize` gives: an optional `+` followed by decimal
/// digits whose value fits, else nothing.
pub open spec fn usize_of(s: Seq<char>) -> Option<usize> {
    let body = if s.len() > 0 && s[0] == '+' {
        s.drop_first()
    } else {
        s
    };
    if all_digits(body) && decimal_value(body) <= usize::MAX {
        Some(decimal_value(body) as usize)
    } else {
        None
    }
}

/// Relies on `str::trim`: the line without leading and trailing whitespace.
#[verifier::external_body]
fn trim_line(s: &String) -> (r: String)
    ensures
        r@ == trimmed(s@),
{
    s.trim().to_owned()
}

/// Relies on `usize`'s `FromStr`: an optional `+` and decimal digits, without
/// overflow, give their value; anything else is an error.
#[verifier::external_body]
fn parse_count(s: &String) -> (r: Option<usize>)
    ensures
        r == usize_of(s@),
{
    s.parse::<usize>().ok()
}

/// Relies on `usize`'s `Display` (through `to_string`): decimal digits, no sign.
#[verifier::external_body]
fn count_text(n: usize) -> (r: String)
    ensures
        r@ == decimal(n as nat),
{
    n.to_string()
}

/// Relies on collecting `char`s into a `String`: the same characters in order.
#[verifier::external_body]
fn text_of(chars: &Vec<char>) -> (r: String)
    ensures
        r@ == chars@,
{
    chars.iter().collect()
}

/// The ten decimal digits.
pub open spec fn digits() -> Seq<char> {
    seq!['0', '1', '2', '3', '4', '5', '6', '7', '8', '9']
}

/// The decimal digits of `n`, most significant first.
pub open spec fn decimal(n: nat) -> Seq<char>
    decreases n,
{
    if n < 10 {
        seq![digits()[n as int]]
    } else {
        decimal(n / 10).push(digits()[(n % 10) as int])
    }
}

/// The lines of a text, each as its characters.
pub open spec fn lines_of(lines: Seq<String>) -> Seq<Seq<char>> {
    lines.map_values(|s: String| s@)
}

/// `t` is a matrix row: only `X` and `.`.
pub open spec fn row_chars_ok(t: Seq<char>) -> bool {
    forall|k: int| 0 <= k < t.len() ==> t[k] == 'X' || t[k] == '.'
}

/// The bits a matrix row stands for: `X` is a one.
pub open spec fn row_bits(t: Seq<char>) -> Seq<bool> {
    Seq::new(t.len(), |k: int| t[k] == 'X')
}

/// The first fault among matrix rows `k..n`, which start at line `start`.
pub open spec fn row_error(ls: Seq<Seq<char>>, start: int, n: int, m: int, k: int) -> Option<CxtError>
    decreases n - k,
{
    if k >= n {
        None
    } else if start + k >= ls.len() {
        Some(CxtError::MissingLine((start + k) as usize))
    } else if !row_chars_ok(trimmed(ls[start + k])) {
        Some(CxtError::BadCharacter((start + k) as usize))
    } else if trimmed(ls[start + k]).len() != m {
        Some(CxtError::BadRowLength((start + k) as usize))
    } else {
        row_error(ls, start, n, m, k + 1)
    }
}

/// The number of objects a text declares (line 2).
pub open spec fn declared_n(ls: Seq<Seq<char>>) -> int {
    usize_of(trimmed(ls[2])).unwrap() as int
}

/// The number of attributes a text declares (line 3).
pub open spec fn declared_m(ls: Seq<Seq<char>>) -> int {
    usize_of(trimmed(ls[3])).unwrap() as int
}

/// The first fault of a text in the `.cxt` format, read line by line: a
/// header line `B`, a blank line, the two counts, a blank line, the object
/// labels, the attribute labels, and one row of `X` and `.` per object. Every
/// line is read without its surrounding white space.
pub open spec fn cxt_error(ls: Seq<Seq<char>>) -> Option<CxtError> {
    if ls.len() < 1 {
        Some(CxtError::MissingLine(0))
    } else if trimmed(ls[0]) != seq!['B'] {
        Some(CxtError::BadHeader(0))
    } else if ls.len() < 2 {
        Some(CxtError::MissingLine(1))
    } else if trimmed(ls[1]).len() != 0 {
        Some(CxtError::BadHeader(1))
    } else if ls.len() < 3 {
        Some(CxtError::MissingLine(2))
    } else if usize_of(trimmed(ls[2])) is None {
        Some(CxtError::BadCount(2))
    } else if ls.len() < 4 {
        Some(CxtError::MissingLine(3))
    } else if usize_of(trimmed(ls[3])) is None {
        Some(CxtError::BadCount(3))
    } else if ls.len() < 5 {
        Some(CxtError::MissingLine(4))
    } else if trimmed(ls[4]).len() != 0 {
        Some(CxtError::BadHeader(4))
    } else if ls.len() < 5 + declared_n(ls) + declared_m(ls) {
        Some(CxtError::MissingLine(ls.len() as usize))
    } else {
        row_error(ls, 5 + declared_n(ls) + declared_m(ls), declared_n(ls), declared_m(ls), 0)
    }
}

/// `ctx` holds what a well-formed `.cxt` text says: the trimmed label lines and
/// the bits of the trimmed matrix rows.
pub open spec fn cxt_holds(ls: Seq<Seq<char>>, ctx: FormalContext<String, String>) -> bool {
    let n = declared_n(ls);
    let m = declared_m(ls);
    &&& ctx.wf()
    &&& ctx.n() == n
    &&& ctx.m() == m
    &&& forall|i: int| 0 <= i < n ==> (#[trigger] ctx.object_labels()[i])@ == trimmed(ls[5 + i])
    &&& forall|j: int| 0 <= j < m ==> (#[trigger] ctx.attribute_labels()[j])@ == trimmed(ls[5 + n + j])
    &&& forall|i: int| 0 <= i < n ==> #[trigger] ctx.rows()[i] == row_bits(trimmed(ls[5 + n + m + i]))
}

/// Whether a trimmed line is the header `B`.
fn is_header(t: &String) -> (r: bool)
    ensures
        r == (t@ == seq!['B']),
{
    let s = t.as_str();
    if !s.is_ascii() {
        proof {
            if t@ == seq!['B'] {
                assert(vstd::utf8::is_ascii_chars(t@));
            }
        }
        return false;
    }
    proof {
        vstd::string::is_ascii_spec_bytes(s);
    }
    let bytes = s.as_bytes();
    if bytes.len() != 1 {
        return false;
    }
    if bytes[0] == 66u8 {
        assert(t@ =~= seq!['B']);
        true
    } else {
        assert(t@[0] != 'B');
        false
    }
}

/// Checks one trimmed matrix row and turns it into bits.
fn parse_row(t: &String, m: usize, line: usize) -> (r: Result<Bits, CxtError>)
    ensures
        match r {
            Ok(b) => row_chars_ok(t@) && t@.len() == m && b@ == row_bits(t@),
            Err(e) => if !row_chars_ok(t@) {
                e == CxtError::BadCharacter(line)
            } else {
                t@.len() != m && e == CxtError::BadRowLength(line)
            },
        },
{
    let s = t.as_str();
    if !s.is_ascii() {
        proof {
            assert(!row_chars_ok(t@)) by {
                if row_chars_ok(t@) {
                    assert(vstd::utf8::is_ascii_chars(t@));
                }
            }
        }
        return Err(CxtError::BadCharacter(line));
    }
    proof {
        vstd::string::is_ascii_spec_bytes(s);
    }
    let bytes = s.as_bytes();
    let mut row = Bits::new();
    let mut k: usize = 0;
    while k < bytes.len()
        invariant
            is_ascii(s),
            s@ == t@,
            bytes@ == s.spec_bytes(),
            bytes@ =~= Seq::new(s@.len(), |i| s@.index(i) as u8),
            k <= bytes@.len(),
            row@ == row_bits(t@).subrange(0, k as int),
            forall|q: int| 0 <= q < k ==> t@[q] == 'X' || t@[q] == '.',
        decreases bytes@.len() - k,
    {
        let c = bytes[k];
        if c == 88u8 {
            assert(t@[k as int] == 'X');
            row.push(true);
        } else if c == 46u8 {
            assert(t@[k as int] == '.');
            row.push(false);
        } else {
            assert(t@[k as int] != 'X' && t@[k as int] != '.');
            return Err(CxtError::BadCharacter(line));
        }
        assert(row@ =~= row_bits(t@).subrange(0, k + 1));
        k = k + 1;
    }
    assert(row@ =~= row_bits(t@));
    if bytes.len() != m {
        return Err(CxtError::BadRowLength(line));
    }
    Ok(row)
}

impl FormalContext<String, String> {
    /// Reads a context from the lines of a text in the `.cxt` format; see
    /// `cxt_error` for the layout and for which fault is reported.
    pub fn from_cxt_lines(lines: &Vec<String>) -> (r: Result<Self, CxtError>)
        ensures
            match r {
                Ok(c) => cxt_error(lines_of(lines@)) is None && cxt_holds(lines_of(lines@), c),
                Err(e) => cxt_error(lines_of(lines@)) == Some(e),
            },
    {
        let ghost ls = lines_of(lines@);
        let len = lines.len();
        if len < 1 {
            return Err(CxtError::MissingLine(0));
        }
        assert(ls[0] == lines@[0]@);
        if !is_header(&trim_line(&lines[0])) {
            return Err(CxtError::BadHeader(0));
        }
        if len < 2 {
            return Err(CxtError::MissingLine(1));
        }
        assert(ls[1] == lines@[1]@);
        if !trim_line(&lines[1]).as_str().is_empty() {
            return Err(CxtError::BadHeader(1));
        }
        if len < 3 {
            return Err(CxtError::MissingLine(2));
        }
        assert(ls[2] == lines@[2]@);
        let n = match parse_count(&trim_line(&lines[2])) {
            Some(v) => v,
            None => {
                return Err(CxtError::BadCount(2));
            },
        };
        if len < 4 {
            return Err(CxtError::MissingLine(3));
        }
        assert(ls[3] == lines@[3]@);
        let m = match parse_count(&trim_line(&lines[3])) {
            Some(v) => v,
            None => {
                return Err(CxtError::BadCount(3));
            },
        };
        if len < 5 {
            return Err(CxtError::MissingLine(4));
        }
        assert(ls[4] == lines@[4]@);
        if !trim_line(&lines[4]).as_str().is_empty() {
            return Err(CxtError::BadHeader(4));
        }
        if len - 5 < n || len - 5 - n < m {
            return Err(CxtError::MissingLine(len));
        }
        let start = 5 + n + m;
        let mut objects: Vec<String> = Vec::new();
        let mut i: usize = 0;
        while i < n
            invariant
                ls == lines_of(lines@),
                len == lines@.len(),
                n as int == declared_n(ls),
                m as int == declared_m(ls),
                start == 5 + n + m,
                start <= len,
                i <= n,
                objects@.len() == i,
                forall|p: int| 0 <= p < i ==> (#[trigger] objects@[p])@ == trimmed(ls[5 + p]),
            decreases n - i,
        {
            assert(ls[5 + i as int] == lines@[5 + i as int]@);
            objects.push(trim_line(&lines[5 + i]));
            i = i + 1;
        }
        let mut attributes: Vec<String> = Vec::new();
        let mut j: usize = 0;
        while j < m
            invariant
                ls == lines_of(lines@),
                len == lines@.len(),
                n as int == declared_n(ls),
                m as int == declared_m(ls),
                start == 5 + n + m,
                start <= len,
                j <= m,
                attributes@.len() == j,
                forall|p: int| 0 <= p < j ==> (#[trigger] attributes@[p])@ == trimmed(ls[5 + n + p]),
            decreases m - j,
        {
            assert(ls[5 + n + j as int] == lines@[5 + n + j as int]@);
            attributes.push(trim_line(&lines[5 + n + j]));
            j = j + 1;
        }
        let mut relation: Vec<Bits> = Vec::new();
        let mut k: usize = 0;
        while k < n
            invariant
                ls == lines_of(lines@),
                len == lines@.len(),
                n as int == declared_n(ls),
                m as int == declared_m(ls),
                start == 5 + n + m,
                start <= len,
                k <= n,
                start + k <= len,
                cxt_error(ls) == row_error(ls, start as int, n as int, m as int, k as int),
                relation@.len() == k,
                forall|p: int| 0 <= p < k ==> (#[trigger] relation@[p])@ == row_bits(trimmed(ls[start + p])),
                forall|p: int| 0 <= p < k ==> (#[trigger] relation@[p])@.len() == m,
            decreases n - k,
        {
            if k >= len - start {
                return Err(CxtError::MissingLine(len));
            }
            assert(ls[start + k as int] == lines@[start + k as int]@);
            let t = trim_line(&lines[start + k]);
            match parse_row(&t, m, start + k) {
                Ok(b) => {
                    relation.push(b);
                },
                Err(e) => {
                    return Err(e);
                },
            }
            k = k + 1;
        }
        assert(rows_have_len(matrix_of(relation@), m as nat));
        let r = FormalContext::new(objects, attributes, relation);
        assert forall|p: int| 0 <= p < n implies #[trigger] r.rows()[p] == row_bits(trimmed(ls[5 + n + m + p])) by {
            assert(r.rows()[p] == relation@[p]@);
        }
        Ok(r)
    }
}

/// The text of a matrix row: `X` for a one, `.` for a zero.
pub open spec fn row_text(r: Seq<bool>) -> Seq<char> {
    Seq::new(r.len(), |k: int| if r[k] { 'X' } else { '.' })
}

/// The lines in which `to_cxt_lines` writes a context.
pub open spec fn cxt_text(ctx: FormalContext<String, String>) -> Seq<Seq<char>> {
    seq![seq!['B'], Seq::<char>::empty(), decimal(ctx.n()), decimal(ctx.m()), Seq::<char>::empty()]
        + ctx.object_labels().map_values(|s: String| s@)
        + ctx.attribute_labels().map_values(|s: String| s@)
        + ctx.rows().map_values(|r: Seq<bool>| row_text(r))
}

impl FormalContext<String, String> {
    /// Writes this context as the lines of a text in the `.cxt` format.
    pub fn to_cxt_lines(&self) -> (r: Vec<String>)
        requires
            self.wf(),
        ensures
            lines_of(r@) == cxt_text(*self),
    {
        let n = self.num_objects();
        let m = self.num_attributes();
        let mut out: Vec<String> = Vec::new();
        out.push(text_of(&vec!['B']));
        out.push(String::new());
        out.push(count_text(n));
        out.push(count_text(m));
        out.push(String::new());
        let mut i: usize = 0;
        while i < n
            invariant
                n == self.n(),
                i <= n,
                out@.len() == 5 + i,
                forall|p: int| 0 <= p < 5 ==> (#[trigger] out@[p])@ == cxt_text(*self)[p],
                forall|p: int| 0 <= p < i ==> #[trigger] out@[5 + p]@ == self.object_labels()[p]@,
            decreases n - i,
        {
            out.push(self.object_label(i).clone());
            i = i + 1;
        }
        let mut j: usize = 0;
        while j < m
            invariant
                n == self.n(),
                m == self.m(),
                j <= m,
                out@.len() == 5 + n + j,
                forall|p: int| 0 <= p < 5 ==> (#[trigger] out@[p])@ == cxt_text(*self)[p],
                forall|p: int| 0 <= p < n ==> #[trigger] out@[5 + p]@ == self.object_labels()[p]@,
                forall|p: int| 0 <= p < j ==> #[trigger] out@[5 + n + p]@ == self.attribute_labels()[p]@,
            decreases m - j,
        {
            out.push(self.attribute_label(j).clone());
            j = j + 1;
        }
        let mut k: usize = 0;
        while k < n
            invariant
                self.wf(),
                n == self.n(),
                m == self.m(),
                k <= n,
                out@.len() == 5 + n + m + k,
                forall|p: int| 0 <= p < 5 ==> (#[trigger] out@[p])@ == cxt_text(*self)[p],
                forall|p: int| 0 <= p < n ==> #[trigger] out@[5 + p]@ == self.object_labels()[p]@,
                forall|p: int| 0 <= p < m ==> #[trigger] out@[5 + n + p]@ == self.attribute_labels()[p]@,
                forall|p: int| 0 <= p < k ==> #[trigger] out@[5 + n + m + p]@ == row_text(self.rows()[p]),
            decreases n - k,
        {
            let row = self.get_object_intent(k);
            let mut chars: Vec<char> = Vec::new();
            let mut q: usize = 0;
            while q < m
                invariant
                    self.wf(),
                    k < n,
                    n == self.n(),
                    m == self.m(),
                    row@ == self.rows()[k as int],
                    row@.len() == m,
                    q <= m,
                    chars@ == row_text(row@).subrange(0, q as int),
                decreases m - q,
            {
                if row.get(q) {
                    chars.push('X');
                } else {
                    chars.push('.');
                }
                q = q + 1;
                assert(chars@ =~= row_text(row@).subrange(0, q as int));
            }
            assert(chars@ =~= row_text(row@));
            out.push(text_of(&chars));
            k = k + 1;
        }
        proof {
            reveal_strlit("B");
            assert(lines_of(out@) =~= cxt_text(*self)) by {
                assert forall|p: int| 0 <= p < out@.len() implies lines_of(out@)[p] == cxt_text(*self)[p] by {
                    if p >= 5 && p < 5 + n {
                        assert(out@[5 + (p - 5)]@ == self.object_labels()[p - 5]@);
                    } else if p >= 5 + n && p < 5 + n + m {
                        assert(out@[5 + n + (p - 5 - n)]@ == self.attribute_labels()[p - 5 - n]@);
                    } else if p >= 5 + n + m {
                        assert(out@[5 + n + m + (p - 5 - n - m)]@ == row_text(self.rows()[p - 5 - n - m]));
                    }
                }
            }
        }
        out
    }
}

/// Each digit has its value, and is neither white space nor a sign.
proof fn lemma_digits()
    ensures
        forall|d: int| 0 <= d < 10 ==> digit_value(#[trigger] digits()[d]) == d && !is_white_space(digits()[d])
            && digits()[d] != '+',
{
    assert forall|d: int| 0 <= d < 10 implies digit_value(#[trigger] digits()[d]) == d && !is_white_space(digits()[d])
        && digits()[d] != '+' by {
        if d == 0 {
        } else if d == 1 {
        } else if d == 2 {
        } else if d == 3 {
        } else if d == 4 {
        } else if d == 5 {
        } else if d == 6 {
        } else if d == 7 {
        } else if d == 8 {
        } else {
        }
    }
}

/// The decimal digits of `n` spell `n`, and start and end with a digit.
proof fn lemma_decimal(n: nat)
    ensures
        all_digits(decimal(n)),
        decimal_value(decimal(n)) == n,
        !is_white_space(decimal(n)[0]),
        !is_white_space(decimal(n).last()),
        decimal(n)[0] != '+',
    decreases n,
{
    lemma_digits();
    if n < 10 {
        let s = decimal(n);
        assert(s.drop_last() =~= Seq::<char>::empty());
        assert(digits().contains(s[0]));
        assert(decimal_value(s.drop_last()) == 0);
        assert(digit_value(s.last()) == n);
    } else {
        lemma_decimal(n / 10);
        let p = decimal(n / 10);
        let s = decimal(n);
        assert(s.drop_last() =~= p);
        assert(digits().contains(s.last()));
        assert(digit_value(s.last()) == n % 10);
        assert(decimal_value(s) == (n / 10) * 10 + n % 10);
        assert((n / 10) * 10 + n % 10 == n) by (nonlinear_arith);
        assert forall|k: int| 0 <= k < s.len() implies digits().contains(#[trigger] s[k]) by {
            if k < p.len() {
                assert(s[k] == p[k]);
            }
        }
        assert(s[0] == p[0]);
    }
}

/// A line that neither starts nor ends with white space is its own trim.
proof fn lemma_trim_plain(s: Seq<char>)
    requires
        s.len() > 0 ==> !is_white_space(s[0]) && !is_white_space(s.last()),
    ensures
        trimmed(s) == s,
{
}

/// The text of a matrix row reads back as the same row.
proof fn lemma_row_text(r: Seq<bool>)
    ensures
        trimmed(row_text(r)) == row_text(r),
        row_chars_ok(row_text(r)),
        row_bits(row_text(r)) == r,
        row_text(r).len() == r.len(),
{
    lemma_trim_plain(row_text(r));
    assert(row_bits(row_text(r)) =~= r);
}

/// Rows `k..n` of a written context are free of faults.
proof fn lemma_rows_read_back(ls: Seq<Seq<char>>, start: int, n: int, m: int, rows: Seq<Seq<bool>>, k: int)
    requires
        0 <= k <= n,
        0 <= start,
        start + n <= ls.len(),
        rows.len() == n,
        forall|p: int| 0 <= p < n ==> (#[trigger] rows[p]).len() == m,
        forall|p: int| 0 <= p < n ==> ls[start + p] == row_text(#[trigger] rows[p]),
    ensures
        row_error(ls, start, n, m, k) is None,
    decreases n - k,
{
    if k < n {
        lemma_row_text(rows[k]);
        lemma_rows_read_back(ls, start, n, m, rows, k + 1);
    }
}

/// Writing a context and reading the text back succeeds, and gives the same
/// dimensions and the same matrix.
pub proof fn cxt_round_trip(ctx: FormalContext<String, String>)
    requires
        ctx.wf(),
        ctx.n() <= usize::MAX,
        ctx.m() <= usize::MAX,
    ensures
        cxt_error(cxt_text(ctx)) is None,
        forall|back: FormalContext<String, String>|
            #[trigger] cxt_holds(cxt_text(ctx), back) ==> back.n() == ctx.n() && back.m() == ctx.m() && back.rows()
                == ctx.rows(),
{
    let ls = cxt_text(ctx);
    let n = ctx.n();
    let m = ctx.m();
    lemma_decimal(n);
    lemma_decimal(m);
    lemma_trim_plain(seq!['B']);
    lemma_trim_plain(Seq::<char>::empty());
    assert(ls[0] == seq!['B']);
    assert(ls[1] == Seq::<char>::empty());
    assert(ls[4] == Seq::<char>::empty());
    lemma_trim_plain(decimal(n));
    lemma_trim_plain(decimal(m));
    assert(ls[2] == decimal(n));
    assert(ls[3] == decimal(m));
    assert(usize_of(decimal(n)) == Some(n as usize));
    assert(usize_of(decimal(m)) == Some(m as usize));
    assert(declared_n(ls) == n);
    assert(declared_m(ls) == m);
    assert forall|p: int| 0 <= p < n implies ls[5 + n + m + p] == row_text(#[trigger] ctx.rows()[p]) by {}
    lemma_rows_read_back(ls, (5 + n + m) as int, n as int, m as int, ctx.rows(), 0);
    assert forall|back: FormalContext<String, String>| #[trigger] cxt_holds(cxt_text(ctx), back) implies back.n() == ctx.n()
        && back.m() == ctx.m() && back.rows() == ctx.rows() by {
        assert forall|p: int| 0 <= p < n implies back.rows()[p] == ctx.rows()[p] by {
            lemma_row_text(ctx.rows()[p]);
            assert(ls[5 + n + m + p] == row_text(ctx.rows()[p]));
        }
        assert(back.rows() =~= ctx.rows());
    }
}

} // verus!
