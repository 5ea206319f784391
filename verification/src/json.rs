//! The JSON text layer of the agent protocol: string escaping, and a parser
//! that turns a document into a flat sequence of nodes.
//!
//! Numbers are carried as their source text; the caller turns them into
//! floating-point values.

use crate::text::{chars_of, push_char};
use vstd::prelude::*;
use vstd::string::StringSliceAdditionalSpecFns;

verus! {

broadcast use vstd::string::group_string_axioms;

/// The decimal digit `d` (0 to 9) as a character.
pub open spec fn digit_char(d: int) -> char {
    (48 + d) as char
}

/// Decimal notation of `n`, without leading zeros.
pub open spec fn dec(n: nat) -> Seq<char>
    decreases n,
{
    if n < 10 {
        seq![digit_char(n as int)]
    } else {
        dec(n / 10).push(digit_char((n % 10) as int))
    }
}

/// Appends the decimal notation of `n` to `s`.
pub fn push_dec(s: &mut String, n: usize)
    ensures
        final(s)@ == old(s)@ + dec(n as nat),
    decreases n,
{
    if n >= 10 {
        push_dec(s, n / 10);
    }
    let d: u8 = (n % 10) as u8;
    push_char(s, (48u8 + d) as char);
    proof {
        assert(final(s)@ =~= old(s)@ + dec(n as nat));
    }
}

/// The lower-case hexadecimal digit `d` (0 to 15).
pub open spec fn hex_digit(d: int) -> char {
    if d < 10 {
        (48 + d) as char
    } else {
        (87 + d) as char
    }
}

/// How one character of a string is written inside JSON quotes.
pub open spec fn escape_char(c: char) -> Seq<char> {
    if c == '"' {
        seq!['\\', '"']
    } else if c == '\\' {
        seq!['\\', '\\']
    } else if c == '\n' {
        seq!['\\', 'n']
    } else if c == '\r' {
        seq!['\\', 'r']
    } else if c == '\t' {
        seq!['\\', 't']
    } else if (c as u32) < 0x20 {
        seq!['\\', 'u', '0', '0', hex_digit((c as u32 / 16) as int), hex_digit((c as u32 % 16) as int)]
    } else {
        seq![c]
    }
}

/// The escaped form of `s`: each character written as `escape_char` gives.
pub open spec fn escape_spec(s: Seq<char>) -> Seq<char>
    decreases s.len(),
{
    if s.len() == 0 {
        Seq::empty()
    } else {
        escape_spec(s.drop_last()) + escape_char(s.last())
    }
}

/// Escapes `s` for use inside JSON quotes: `"` and `\` are backslashed,
/// newline, carriage return and tab use their short escapes, other control
/// characters become `\u00XX`, and everything else is kept.
pub fn escape(s: &str) -> (out: String)
    ensures
        out@ == escape_spec(s@),
{
    let cs = chars_of(s);
    let mut out = String::new();
    let mut i: usize = 0;
    while i < cs.len()
        invariant
            cs@ == s@,
            i <= cs@.len(),
            out@ == escape_spec(cs@.take(i as int)),
        decreases cs.len() - i,
    {
        let c = cs[i];
        proof {
            assert(cs@.take(i as int + 1).drop_last() =~= cs@.take(i as int));
        }
        if c == '"' {
            push_char(&mut out, '\\');
            push_char(&mut out, '"');
        } else if c == '\\' {
            push_char(&mut out, '\\');
            push_char(&mut out, '\\');
        } else if c == '\n' {
            push_char(&mut out, '\\');
            push_char(&mut out, 'n');
        } else if c == '\r' {
            push_char(&mut out, '\\');
            push_char(&mut out, 'r');
        } else if c == '\t' {
            push_char(&mut out, '\\');
            push_char(&mut out, 't');
        } else if (c as u32) < 0x20 {
            let v: u32 = c as u32;
            push_char(&mut out, '\\');
            push_char(&mut out, 'u');
            push_char(&mut out, '0');
            push_char(&mut out, '0');
            push_char(&mut out, hex_char(v / 16));
            push_char(&mut out, hex_char(v % 16));
        } else {
            push_char(&mut out, c);
        }
        proof {
            assert(out@ =~= escape_spec(cs@.take(i as int + 1)));
        }
        i += 1;
    }
    proof {
        assert(cs@.take(cs@.len() as int) =~= s@);
    }
    out
}

fn hex_char(d: u32) -> (c: char)
    requires
        d < 16,
    ensures
        c == hex_digit(d as int),
{
    let b: u8 = d as u8;
    if b < 10 {
        (48u8 + b) as char
    } else {
        (87u8 + b) as char
    }
}

/// The number of bytes of the UTF-8 sequence that `lead` starts; a byte that
/// starts none counts as one.
pub open spec fn utf8_len_spec(lead: u8) -> int {
    if lead < 0x80 {
        1
    } else if 0xc0 <= lead < 0xe0 {
        2
    } else if 0xe0 <= lead < 0xf0 {
        3
    } else if 0xf0 <= lead < 0xf8 {
        4
    } else {
        1
    }
}

/// The length of the UTF-8 sequence that begins with `lead`, counting an
/// invalid lead byte as one so that scanning always moves forward.
pub fn utf8_seq_len(lead: u8) -> (n: usize)
    ensures
        n == utf8_len_spec(lead),
        1 <= n <= 4,
{
    proof {
        assert((lead >> 5u8 == 6u8) == (0xc0 <= lead && lead < 0xe0)) by (bit_vector);
        assert((lead >> 4u8 == 14u8) == (0xe0 <= lead && lead < 0xf0)) by (bit_vector);
        assert((lead >> 3u8 == 30u8) == (0xf0 <= lead && lead < 0xf8)) by (bit_vector);
    }
    if lead < 0x80 {
        1
    } else if lead >> 5 == 0b110 {
        2
    } else if lead >> 4 == 0b1110 {
        3
    } else if lead >> 3 == 0b11110 {
        4
    } else {
        1
    }
}

} // verus!

verus! {

/// Nesting depth beyond which a document is refused.
pub const MAX_DEPTH: usize = 128;

/// The byte at `p`, if `p` is inside `s`.
pub open spec fn peek_at(s: Seq<u8>, p: int) -> Option<u8> {
    if 0 <= p < s.len() {
        Some(s[p])
    } else {
        None
    }
}

/// Space, tab, line feed or carriage return.
pub open spec fn is_ws(b: u8) -> bool {
    b == 32 || b == 9 || b == 10 || b == 13
}

/// The first position at or after `p` that holds no whitespace byte.
pub open spec fn ws_end(s: Seq<u8>, p: int) -> int
    decreases s.len() - p,
{
    if 0 <= p < s.len() && is_ws(s[p]) {
        ws_end(s, p + 1)
    } else {
        p
    }
}

/// How `{:?}` shows an optional byte: `Some(n)` or `None`.
pub open spec fn byte_debug(o: Option<u8>) -> Seq<char> {
    match o {
        Some(b) => "Some("@ + dec(b as nat) + ")"@,
        None => "None"@,
    }
}

/// After optional whitespace from `p`, the byte `b`: the position after it,
/// or the message that names what was found instead and where.
pub open spec fn expect_spec(s: Seq<u8>, p: int, b: u8) -> Result<int, Seq<char>> {
    let q = ws_end(s, p);
    if peek_at(s, q) == Some(b) {
        Ok(q + 1)
    } else {
        Err("expected '"@ + seq![b as char] + "' got "@ + byte_debug(peek_at(s, q)) + " at pos "@
            + dec(q as nat))
    }
}

/// The value of a hexadecimal digit.
pub open spec fn hex_value(c: char) -> Option<int> {
    if '0' <= c && c <= '9' {
        Some(c as int - 48)
    } else if 'a' <= c && c <= 'f' {
        Some(c as int - 87)
    } else if 'A' <= c && c <= 'F' {
        Some(c as int - 55)
    } else {
        None
    }
}

/// The value of a run of hexadecimal digits, if every character is one.
pub open spec fn hex_digits(t: Seq<char>) -> Option<int>
    decreases t.len(),
{
    if t.len() == 0 {
        Some(0)
    } else {
        match (hex_digits(t.drop_last()), hex_value(t.last())) {
            (Some(v), Some(d)) => Some(v * 16 + d),
            _ => None,
        }
    }
}

/// `t` read as a hexadecimal number the way `u32::from_str_radix(t, 16)`
/// reads a text too short to overflow: an optional leading `+`, then at
/// least one digit and nothing else.
pub open spec fn radix16(t: Seq<char>) -> Option<int> {
    if t.len() == 0 {
        None
    } else if t[0] == '+' {
        if t.len() == 1 {
            None
        } else {
            hex_digits(t.drop_first())
        }
    } else {
        hex_digits(t)
    }
}

/// The character with code point `cp`, or U+FFFD where `cp` names none.
pub open spec fn scalar_or_replacement(cp: int) -> char {
    if (0 <= cp < 0xd800) || (0xe000 <= cp <= 0x10ffff) {
        cp as char
    } else {
        '\u{FFFD}'
    }
}

/// The byte at `p` read as a character, or `'0'` past the end.
pub open spec fn byte_char_or_zero(s: Seq<u8>, p: int) -> char {
    match peek_at(s, p) {
        Some(b) => b as char,
        None => '0',
    }
}

/// The four characters that follow a `\u` escape whose digits start at `p`.
pub open spec fn hex_text(s: Seq<u8>, p: int) -> Seq<char> {
    seq![
        byte_char_or_zero(s, p),
        byte_char_or_zero(s, p + 1),
        byte_char_or_zero(s, p + 2),
        byte_char_or_zero(s, p + 3),
    ]
}

/// What a run of bytes adds to a string: its characters where it is valid
/// UTF-8, else one U+FFFD.
pub open spec fn utf8_piece(b: Seq<u8>) -> Seq<char> {
    if vstd::utf8::valid_utf8(b) {
        vstd::utf8::decode_utf8(b)
    } else {
        seq!['\u{FFFD}']
    }
}

/// `a` put in front of the text of a successful string result.
pub open spec fn prepend(
    a: Seq<char>,
    r: Result<(Seq<char>, int), Seq<char>>,
) -> Result<(Seq<char>, int), Seq<char>> {
    match r {
        Ok((t, e)) => Ok((a + t, e)),
        Err(m) => Err(m),
    }
}

/// The rest of a string literal from `p` (just after the opening quote or
/// after an earlier part of it): its text and the position after the closing
/// quote, or the message of the first fault.
pub open spec fn string_body(s: Seq<u8>, p: int) -> Result<(Seq<char>, int), Seq<char>>
    decreases s.len() + 8 - p,
{
    match peek_at(s, p) {
        None => Err("unterminated string"@),
        Some(b) => if b == 34 {
            Ok((Seq::empty(), p + 1))
        } else if b == 92 {
            match peek_at(s, p + 1) {
                None => Err("unterminated string: trailing backslash"@),
                Some(e) => if e == 34 {
                    prepend(seq!['"'], string_body(s, p + 2))
                } else if e == 92 {
                    prepend(seq!['\\'], string_body(s, p + 2))
                } else if e == 110 {
                    prepend(seq!['\n'], string_body(s, p + 2))
                } else if e == 114 {
                    prepend(seq!['\r'], string_body(s, p + 2))
                } else if e == 116 {
                    prepend(seq!['\t'], string_body(s, p + 2))
                } else if e == 47 {
                    prepend(seq!['/'], string_body(s, p + 2))
                } else if e == 117 {
                    match radix16(hex_text(s, p + 2)) {
                        Some(cp) => prepend(
                            seq![scalar_or_replacement(cp)],
                            string_body(s, p + 6),
                        ),
                        None => Err("bad \\u escape: "@ + hex_text(s, p + 2)),
                    }
                } else {
                    Err("invalid escape \\"@ + seq![e as char] + " at pos "@ + dec((p + 1) as nat))
                },
            }
        } else {
            let end = if p + utf8_len_spec(b) < s.len() {
                p + utf8_len_spec(b)
            } else {
                s.len() as int
            };
            prepend(utf8_piece(s.subrange(p, end)), string_body(s, end))
        },
    }
}

/// A string literal after optional whitespace from `p`: its text and the
/// position after it, or the message of the first fault.
pub open spec fn string_spec(s: Seq<u8>, p: int) -> Result<(Seq<char>, int), Seq<char>> {
    match expect_spec(s, p, 34) {
        Ok(q) => string_body(s, q),
        Err(m) => Err(m),
    }
}

proof fn lemma_prepend_twice(a: Seq<char>, b: Seq<char>, r: Result<(Seq<char>, int), Seq<char>>)
    ensures
        prepend(a, prepend(b, r)) == prepend(a + b, r),
{
    match r {
        Ok((t, e)) => {
            assert(a + (b + t) =~= (a + b) + t);
        },
        Err(m) => {},
    }
}

proof fn lemma_prepend_empty(r: Result<(Seq<char>, int), Seq<char>>)
    ensures
        prepend(Seq::empty(), r) == r,
{
    match r {
        Ok((t, e)) => {
            assert(Seq::<char>::empty() + t =~= t);
        },
        Err(m) => {},
    }
}

/// `std::str::from_utf8`: claimed to succeed exactly when `bytes` are valid
/// UTF-8, giving the text whose UTF-8 encoding is `bytes`; the error value is
/// dropped.
#[verifier::external_body]
fn utf8_text(bytes: &[u8]) -> (r: Option<&str>)
    ensures
        r is Some <==> vstd::utf8::valid_utf8(bytes@),
        r matches Some(t) ==> t.spec_bytes() == bytes@,
{
    std::str::from_utf8(bytes).ok()
}

/// `char::from_u32`: claimed to give the character with code point `cp`
/// exactly when `cp` is a Unicode scalar value (at most 0x10FFFF and outside
/// the surrogates 0xD800..=0xDFFF), and `None` otherwise.
#[verifier::external_body]
fn char_from_u32(cp: u32) -> (r: Option<char>)
    ensures
        r == (if (cp < 0xd800) || (0xe000 <= cp && cp <= 0x10ffff) {
            Some(cp as char)
        } else {
            None
        }),
{
    char::from_u32(cp)
}

/// Reads the four characters after a `\u` the way `u32::from_str_radix`
/// with radix 16 does.
fn hex4_value(t: &Vec<char>) -> (r: Option<u32>)
    requires
        t@.len() == 4,
    ensures
        match radix16(t@) {
            Some(v) => r == Some(v as u32) && 0 <= v < 0x10000,
            None => r is None,
        },
{
    let start: usize = if t[0] == '+' {
        1
    } else {
        0
    };
    let mut acc: u32 = 0;
    let mut i: usize = start;
    while i < 4
        invariant
            t@.len() == 4,
            start == (if t@[0] == '+' {
                1usize
            } else {
                0usize
            }),
            start <= i <= 4,
            hex_digits(t@.subrange(start as int, i as int)) == Some(acc as int),
            acc < pow16(i - start),
        decreases 4 - i,
    {
        let c = t[i];
        let d: u32 = if '0' <= c && c <= '9' {
            (c as u32) - 48
        } else if 'a' <= c && c <= 'f' {
            (c as u32) - 87
        } else if 'A' <= c && c <= 'F' {
            (c as u32) - 55
        } else {
            proof {
                lemma_hex_digits_none(t@.subrange(start as int, 4), (i - start) as int);
                if start == 1 {
                    assert(t@.drop_first() =~= t@.subrange(1, 4));
                } else {
                    assert(t@ =~= t@.subrange(0, 4));
                }
            }
            return None;
        };
        proof {
            assert(t@.subrange(start as int, i + 1).drop_last() =~= t@.subrange(start as int, i as int));
            assert(hex_value(c) == Some(d as int));
        }
        acc = acc * 16 + d;
        i += 1;
    }
    proof {
        if start == 1 {
            assert(t@.drop_first() =~= t@.subrange(1, 4));
        } else {
            assert(t@ =~= t@.subrange(0, 4));
        }
    }
    Some(acc)
}

spec fn pow16(k: int) -> int {
    if k <= 0 {
        1
    } else if k == 1 {
        16
    } else if k == 2 {
        256
    } else if k == 3 {
        4096
    } else {
        65536
    }
}

proof fn lemma_hex_digits_none(t: Seq<char>, k: int)
    requires
        0 <= k < t.len(),
        hex_value(t[k]) is None,
    ensures
        hex_digits(t) is None,
    decreases t.len(),
{
    if k == t.len() - 1 {
    } else {
        lemma_hex_digits_none(t.drop_last(), k);
    }
}

} // verus!

verus! {

/// A cursor over the bytes of a JSON document.
pub struct Parser<'a> {
    src: &'a [u8],
    pos: usize,
    depth: usize,
}

impl<'a> Parser<'a> {
    /// The bytes of the document.
    pub closed spec fn bytes(&self) -> Seq<u8> {
        self.src@
    }

    /// The current position.
    pub closed spec fn at(&self) -> int {
        self.pos as int
    }

    /// The current nesting depth.
    pub closed spec fn level(&self) -> int {
        self.depth as int
    }

    /// The document fits in memory and the position is inside it or at its end.
    pub open spec fn wf(&self) -> bool {
        &&& self.bytes().len() <= isize::MAX
        &&& 0 <= self.at() <= self.bytes().len()
    }

    /// A parser at the start of `input`.
    pub fn new(input: &'a str) -> (p: Parser<'a>)
        requires
            input.spec_bytes().len() <= isize::MAX,
        ensures
            p.bytes() == input.spec_bytes(),
            p.at() == 0,
            p.level() == 0,
            p.wf(),
    {
        Parser { src: input.as_bytes(), pos: 0, depth: 0 }
    }

    /// The byte at the current position, if any.
    pub fn peek(&self) -> (r: Option<u8>)
        ensures
            r == peek_at(self.bytes(), self.at()),
    {
        if self.pos < self.src.len() {
            Some(self.src[self.pos])
        } else {
            None
        }
    }

    /// Moves one byte forward.
    pub fn advance(&mut self)
        requires
            old(self).at() < usize::MAX,
        ensures
            final(self).at() == old(self).at() + 1,
            final(self).bytes() == old(self).bytes(),
            final(self).level() == old(self).level(),
    {
        self.pos += 1;
    }

    /// Skips spaces, tabs, line feeds and carriage returns.
    pub fn skip_ws(&mut self)
        requires
            old(self).wf(),
        ensures
            final(self).at() == ws_end(old(self).bytes(), old(self).at()),
            final(self).at() >= old(self).at(),
            final(self).bytes() == old(self).bytes(),
            final(self).level() == old(self).level(),
            final(self).wf(),
    {
        loop
            invariant
                self.wf(),
                self.at() >= old(self).at(),
                self.bytes() == old(self).bytes(),
                self.level() == old(self).level(),
                ws_end(self.bytes(), self.at()) == ws_end(old(self).bytes(), old(self).at()),
            decreases self.bytes().len() - self.at(),
        {
            match self.peek() {
                Some(b) => {
                    if b == 32 || b == 9 || b == 10 || b == 13 {
                        self.advance();
                    } else {
                        return;
                    }
                },
                None => {
                    return;
                },
            }
        }
    }

    /// After optional whitespace, consumes the byte `b`; otherwise says what
    /// was found and where.
    pub fn expect(&mut self, b: u8) -> (r: Result<(), String>)
        requires
            old(self).wf(),
        ensures
            final(self).bytes() == old(self).bytes(),
            final(self).level() == old(self).level(),
            final(self).wf(),
            match expect_spec(old(self).bytes(), old(self).at(), b) {
                Ok(q) => r is Ok && final(self).at() == q && q > old(self).at(),
                Err(m) => r matches Err(e) && e@ == m,
            },
    {
        self.skip_ws();
        let got = self.peek();
        match got {
            Some(c) => {
                if c == b {
                    self.advance();
                    return Ok(());
                }
            },
            None => {},
        }
        let mut m = String::from_str("expected '");
        push_char(&mut m, b as char);
        m.append("' got ");
        push_byte_debug(&mut m, got);
        m.append(" at pos ");
        push_dec(&mut m, self.pos);
        Err(m)
    }
}

impl<'a> Parser<'a> {
    /// Reads a string literal (after optional whitespace): its text with the
    /// escapes `\" \\ \/ \n \r \t \uXXXX` decoded (a `\u` code point that is
    /// no character becomes U+FFFD) and multi-byte characters kept whole.
    pub fn parse_string(&mut self) -> (r: Result<String, String>)
        requires
            old(self).wf(),
        ensures
            final(self).bytes() == old(self).bytes(),
            final(self).level() == old(self).level(),
            match string_spec(old(self).bytes(), old(self).at()) {
                Ok((t, e)) => r matches Ok(x) && x@ == t && final(self).at() == e && final(self).wf()
                    && e > old(self).at(),
                Err(m) => r matches Err(x) && x@ == m,
            },
    {
        match self.expect(34) {
            Ok(()) => {},
            Err(m) => {
                return Err(m);
            },
        }
        let ghost bytes = self.bytes();
        let ghost p0 = self.at();
        let mut s = String::new();
        proof {
            lemma_prepend_empty(string_body(bytes, p0));
        }
        loop
            invariant
                self.bytes() == bytes,
                bytes == old(self).bytes(),
                bytes.len() <= isize::MAX,
                0 <= self.at() <= bytes.len() + 6,
                self.at() >= p0,
                p0 > old(self).at(),
                self.level() == old(self).level(),
                string_spec(bytes, old(self).at()) == string_body(bytes, p0),
                string_body(bytes, p0) == prepend(s@, string_body(bytes, self.at())),
            decreases bytes.len() + 8 - self.at(),
        {
            let ghost p = self.at();
            match self.peek() {
                None => {
                    return Err(String::from_str("unterminated string"));
                },
                Some(b) => {
                    if b == 34 {
                        self.advance();
                        proof {
                            assert(s@ + Seq::<char>::empty() =~= s@);
                        }
                        return Ok(s);
                    } else if b == 92 {
                        self.advance();
                        match self.peek() {
                            None => {
                                return Err(String::from_str("unterminated string: trailing backslash"));
                            },
                            Some(e) => {
                                let piece: char;
                                if e == 34 {
                                    piece = '"';
                                } else if e == 92 {
                                    piece = '\\';
                                } else if e == 110 {
                                    piece = '\n';
                                } else if e == 114 {
                                    piece = '\r';
                                } else if e == 116 {
                                    piece = '\t';
                                } else if e == 47 {
                                    piece = '/';
                                } else if e == 117 {
                                    self.advance();
                                    let mut hex: Vec<char> = Vec::new();
                                    let mut k: usize = 0;
                                    while k < 4
                                        invariant
                                            self.bytes() == bytes,
                                            self.level() == old(self).level(),
                                            bytes.len() <= isize::MAX,
                                            k <= 4,
                                            self.at() == p + 2 + k,
                                            p + 1 < bytes.len(),
                                            hex@ =~= hex_text(bytes, p + 2).take(k as int),
                                        decreases 4 - k,
                                    {
                                        let c: char = match self.peek() {
                                            Some(x) => x as char,
                                            None => '0',
                                        };
                                        hex.push(c);
                                        self.advance();
                                        k += 1;
                                    }
                                    proof {
                                        assert(hex@ =~= hex_text(bytes, p + 2));
                                    }
                                    match hex4_value(&hex) {
                                        Some(cp) => {
                                            let ch = match char_from_u32(cp) {
                                                Some(x) => x,
                                                None => '\u{FFFD}',
                                            };
                                            proof {
                                                assert(string_body(bytes, p) == prepend(
                                                    seq![ch],
                                                    string_body(bytes, p + 6),
                                                ));
                                                lemma_prepend_twice(
                                                    s@,
                                                    seq![ch],
                                                    string_body(bytes, p + 6),
                                                );
                                            }
                                            let ghost before = s@;
                                            push_char(&mut s, ch);
                                            proof {
                                                assert(s@ =~= before + seq![ch]);
                                            }
                                            continue;
                                        },
                                        None => {
                                            let mut m = String::from_str("bad \\u escape: ");
                                            let mut j: usize = 0;
                                            while j < 4
                                                invariant
                                                    j <= 4,
                                                    hex@.len() == 4,
                                                    m@ == "bad \\u escape: "@ + hex@.take(j as int),
                                                decreases 4 - j,
                                            {
                                                push_char(&mut m, hex[j]);
                                                proof {
                                                    assert(hex@.take(j as int + 1) =~= hex@.take(
                                                        j as int,
                                                    ).push(hex@[j as int]));
                                                }
                                                j += 1;
                                            }
                                            proof {
                                                assert(hex@.take(4) =~= hex@);
                                            }
                                            return Err(m);
                                        },
                                    }
                                } else {
                                    let mut m = String::from_str("invalid escape \\");
                                    push_char(&mut m, e as char);
                                    m.append(" at pos ");
                                    push_dec(&mut m, self.pos);
                                    return Err(m);
                                }
                                proof {
                                    assert(string_body(bytes, p) == prepend(
                                        seq![piece],
                                        string_body(bytes, p + 2),
                                    ));
                                    lemma_prepend_twice(s@, seq![piece], string_body(bytes, p + 2));
                                }
                                let ghost before = s@;
                                push_char(&mut s, piece);
                                proof {
                                    assert(s@ =~= before + seq![piece]);
                                }
                                self.advance();
                            },
                        }
                    } else {
                        let len = utf8_seq_len(b);
                        let end: usize = if self.pos + len < self.src.len() {
                            self.pos + len
                        } else {
                            self.src.len()
                        };
                        let chunk = &self.src[self.pos..end];
                        let ghost piece = utf8_piece(bytes.subrange(p, end as int));
                        let ghost old_s_view = s@;
                        match utf8_text(chunk) {
                            Some(t) => {
                                proof {
                                    vstd::utf8::decode_utf8_encode_utf8(t.spec_bytes());
                                    vstd::utf8::encode_utf8_decode_utf8(t@);
                                    assert(t@ == piece);
                                }
                                s.append(t);
                            },
                            None => {
                                push_char(&mut s, '\u{FFFD}');
                                proof {
                                    assert(s@ =~= old_s_view + piece);
                                }
                            },
                        }
                        proof {
                            assert(string_body(bytes, p) == prepend(piece, string_body(bytes, end as int)));
                            lemma_prepend_twice(old_s_view, piece, string_body(bytes, end as int));
                        }
                        self.pos = end;
                    }
                },
            }
        }
    }
}

/// Appends `{:?}` of an optional byte.
fn push_byte_debug(m: &mut String, o: Option<u8>)
    ensures
        final(m)@ == old(m)@ + byte_debug(o),
{
    match o {
        Some(b) => {
            m.append("Some(");
            push_dec(m, b as usize);
            m.append(")");
        },
        None => {
            m.append("None");
        },
    }
    proof {
        assert(final(m)@ =~= old(m)@ + byte_debug(o));
    }
}

} // verus!

verus! {

/// One step of a parsed document, in document order. An array is its
/// elements between `BeginArray` and `EndArray`; an object is its members,
/// each a `Key` followed by the value, between `BeginObject` and `EndObject`.
#[derive(Debug, PartialEq)]
pub enum Node {
    Null,
    Bool(bool),
    /// A number, as its source text.
    Number(String),
    Str(String),
    Key(String),
    BeginArray,
    EndArray,
    BeginObject,
    EndObject,
}

/// A `Node` with its texts as character sequences.
pub enum NodeV {
    Null,
    Bool(bool),
    Number(Seq<char>),
    Str(Seq<char>),
    Key(Seq<char>),
    BeginArray,
    EndArray,
    BeginObject,
    EndObject,
}

impl View for Node {
    type V = NodeV;

    open spec fn view(&self) -> NodeV {
        match self {
            Node::Null => NodeV::Null,
            Node::Bool(b) => NodeV::Bool(*b),
            Node::Number(t) => NodeV::Number(t@),
            Node::Str(t) => NodeV::Str(t@),
            Node::Key(t) => NodeV::Key(t@),
            Node::BeginArray => NodeV::BeginArray,
            Node::EndArray => NodeV::EndArray,
            Node::BeginObject => NodeV::BeginObject,
            Node::EndObject => NodeV::EndObject,
        }
    }
}

/// The views of a run of nodes.
pub open spec fn nodes_view(v: Seq<Node>) -> Seq<NodeV> {
    v.map_values(|n: Node| n@)
}

fn emit(out: &mut Vec<Node>, n: Node)
    ensures
        nodes_view(final(out)@) == nodes_view(old(out)@).push(n@),
{
    let ghost v = n@;
    out.push(n);
    proof {
        assert(nodes_view(out@) =~= nodes_view(old(out)@).push(v));
    }
}

/// An ASCII decimal digit.
pub open spec fn is_digit(b: u8) -> bool {
    48 <= b <= 57
}

/// The first position at or after `p` that holds no digit.
pub open spec fn digits_end(s: Seq<u8>, p: int) -> int
    decreases s.len() - p,
{
    if 0 <= p < s.len() && is_digit(s[p]) {
        digits_end(s, p + 1)
    } else {
        p
    }
}

/// `s` holds `b` at `p`.
pub open spec fn byte_is(s: Seq<u8>, p: int, b: u8) -> bool {
    peek_at(s, p) == Some(b)
}

/// Where the optional minus sign of a number at `p` ends.
pub open spec fn sign_end(s: Seq<u8>, p: int) -> int {
    if byte_is(s, p, 45) {
        p + 1
    } else {
        p
    }
}

/// Where the integer digits of a number at `p` end.
pub open spec fn int_end(s: Seq<u8>, p: int) -> int {
    digits_end(s, sign_end(s, p))
}

/// Where the optional fraction (a dot and digits) of a number at `p` ends.
pub open spec fn frac_end(s: Seq<u8>, p: int) -> int {
    if byte_is(s, int_end(s, p), 46) {
        digits_end(s, int_end(s, p) + 1)
    } else {
        int_end(s, p)
    }
}

/// The number at `p` has an exponent marker after its fraction.
pub open spec fn has_exp(s: Seq<u8>, p: int) -> bool {
    byte_is(s, frac_end(s, p), 101) || byte_is(s, frac_end(s, p), 69)
}

/// Where the exponent digits of a number at `p` start (after `e` and an
/// optional sign).
pub open spec fn exp_start(s: Seq<u8>, p: int) -> int {
    if byte_is(s, frac_end(s, p) + 1, 43) || byte_is(s, frac_end(s, p) + 1, 45) {
        frac_end(s, p) + 2
    } else {
        frac_end(s, p) + 1
    }
}

/// Where the number text that starts at `p` ends.
pub open spec fn number_end(s: Seq<u8>, p: int) -> int {
    if has_exp(s, p) {
        digits_end(s, exp_start(s, p))
    } else {
        frac_end(s, p)
    }
}

/// The scanned number text is one that `f64`'s parser accepts: at least one
/// digit before or after the dot, and at least one exponent digit when there
/// is an exponent.
pub open spec fn float_text_ok(s: Seq<u8>, p: int) -> bool {
    let mantissa = (int_end(s, p) - sign_end(s, p)) + (if byte_is(s, int_end(s, p), 46) {
        frac_end(s, p) - (int_end(s, p) + 1)
    } else {
        0
    });
    mantissa >= 1 && (has_exp(s, p) ==> number_end(s, p) > exp_start(s, p))
}

/// The bytes from `a` to `b`, each read as a character.
pub open spec fn byte_text(s: Seq<u8>, a: int, b: int) -> Seq<char> {
    s.subrange(a, b).map_values(|x: u8| x as char)
}

/// A number at `p`: its node and where it ends, or the parser's error.
pub open spec fn number_spec(s: Seq<u8>, p: int) -> (Seq<NodeV>, Result<int, Seq<char>>) {
    if float_text_ok(s, p) {
        (seq![NodeV::Number(byte_text(s, p, number_end(s, p)))], Ok(number_end(s, p)))
    } else {
        (Seq::empty(), Err("invalid float literal"@))
    }
}

/// The keyword `kw` at `p`: where it ends, or the message naming it.
pub open spec fn literal_spec(s: Seq<u8>, p: int, kw: Seq<char>) -> Result<int, Seq<char>> {
    let k = vstd::utf8::encode_utf8(kw);
    if p + k.len() <= s.len() && s.subrange(p, p + k.len()) == k {
        Ok(p + k.len())
    } else {
        Err("invalid literal at pos "@ + dec(p as nat) + " (expected \""@ + kw + "\")"@)
    }
}

/// A keyword value: its node and where it ends, or the message.
pub open spec fn keyword_spec(s: Seq<u8>, p: int, kw: Seq<char>, n: NodeV) -> (
    Seq<NodeV>,
    Result<int, Seq<char>>,
) {
    match literal_spec(s, p, kw) {
        Ok(e) => (seq![n], Ok(e)),
        Err(m) => (Seq::empty(), Err(m)),
    }
}

/// A value at `p` read at nesting depth `d` (before entering it): the nodes
/// it gives and where it ends, or the nodes read before the first fault and
/// that fault's message.
pub open spec fn value_spec(s: Seq<u8>, p: int, d: int) -> (Seq<NodeV>, Result<int, Seq<char>>)
    decreases MAX_DEPTH - d, 1int, 0int,
{
    if d >= MAX_DEPTH {
        (Seq::empty(), Err("nesting too deep (> 128) at pos "@ + dec(p as nat)))
    } else {
        inner_spec(s, p, d + 1)
    }
}

/// A value at `p` once the depth has been counted.
pub open spec fn inner_spec(s: Seq<u8>, p: int, d: int) -> (Seq<NodeV>, Result<int, Seq<char>>)
    decreases MAX_DEPTH - d, 4int, 0int,
{
    let q = ws_end(s, p);
    match peek_at(s, q) {
        Some(b) => if b == 34 {
            match string_spec(s, q) {
                Ok((t, e)) => (seq![NodeV::Str(t)], Ok(e)),
                Err(m) => (Seq::empty(), Err(m)),
            }
        } else if b == 123 {
            object_spec(s, q, d)
        } else if b == 91 {
            array_spec(s, q, d)
        } else if b == 116 {
            keyword_spec(s, q, "true"@, NodeV::Bool(true))
        } else if b == 102 {
            keyword_spec(s, q, "false"@, NodeV::Bool(false))
        } else if b == 110 {
            keyword_spec(s, q, "null"@, NodeV::Null)
        } else if b == 45 || is_digit(b) {
            number_spec(s, q)
        } else {
            (Seq::empty(), Err("unexpected "@ + byte_debug(Some(b)) + " at pos "@ + dec(q as nat)))
        },
        None => (Seq::empty(), Err("unexpected "@ + byte_debug(None) + " at pos "@ + dec(q as nat))),
    }
}

/// An array at `p` (after optional whitespace).
pub open spec fn array_spec(s: Seq<u8>, p: int, d: int) -> (Seq<NodeV>, Result<int, Seq<char>>)
    decreases MAX_DEPTH - d, 3int, 0int,
{
    match expect_spec(s, p, 91) {
        Err(m) => (Seq::empty(), Err(m)),
        Ok(q1) => {
            let q2 = ws_end(s, q1);
            if byte_is(s, q2, 93) {
                (seq![NodeV::BeginArray, NodeV::EndArray], Ok(q2 + 1))
            } else {
                let (t, r) = items_spec(s, q2, d);
                (seq![NodeV::BeginArray] + t, r)
            }
        },
    }
}

/// The elements of a non-empty array from `p` through its closing bracket.
pub open spec fn items_spec(s: Seq<u8>, p: int, d: int) -> (Seq<NodeV>, Result<int, Seq<char>>)
    decreases MAX_DEPTH - d, 2int, s.len() - p,
{
    let (t1, r1) = value_spec(s, p, d);
    match r1 {
        Err(m) => (t1, Err(m)),
        Ok(e) => {
            let q = ws_end(s, e);
            if byte_is(s, q, 44) {
                if q + 1 <= p {
                    // a value never ends before it starts
                    (t1, Err(Seq::empty()))
                } else {
                    let (t2, r2) = items_spec(s, q + 1, d);
                    (t1 + t2, r2)
                }
            } else if byte_is(s, q, 93) {
                (t1.push(NodeV::EndArray), Ok(q + 1))
            } else {
                (t1, Err("expected ',' or ']' got "@ + byte_debug(peek_at(s, q))))
            }
        },
    }
}

/// An object at `p` (after optional whitespace).
pub open spec fn object_spec(s: Seq<u8>, p: int, d: int) -> (Seq<NodeV>, Result<int, Seq<char>>)
    decreases MAX_DEPTH - d, 3int, 0int,
{
    match expect_spec(s, p, 123) {
        Err(m) => (Seq::empty(), Err(m)),
        Ok(q1) => {
            let q2 = ws_end(s, q1);
            if byte_is(s, q2, 125) {
                (seq![NodeV::BeginObject, NodeV::EndObject], Ok(q2 + 1))
            } else {
                let (t, r) = members_spec(s, q2, d);
                (seq![NodeV::BeginObject] + t, r)
            }
        },
    }
}

/// The members of a non-empty object from `p` through its closing brace.
pub open spec fn members_spec(s: Seq<u8>, p: int, d: int) -> (Seq<NodeV>, Result<int, Seq<char>>)
    decreases MAX_DEPTH - d, 2int, s.len() - p,
{
    match string_spec(s, p) {
        Err(m) => (Seq::empty(), Err(m)),
        Ok((k, e1)) => match expect_spec(s, e1, 58) {
            Err(m) => (seq![NodeV::Key(k)], Err(m)),
            Ok(e2) => {
                let (t, r) = value_spec(s, e2, d);
                let t1 = seq![NodeV::Key(k)] + t;
                match r {
                    Err(m) => (t1, Err(m)),
                    Ok(e3) => {
                        let q = ws_end(s, e3);
                        if byte_is(s, q, 44) {
                            if q + 1 <= p {
                                // a member never ends before it starts
                                (t1, Err(Seq::empty()))
                            } else {
                                let (t2, r2) = members_spec(s, q + 1, d);
                                (t1 + t2, r2)
                            }
                        } else if byte_is(s, q, 125) {
                            (t1.push(NodeV::EndObject), Ok(q + 1))
                        } else {
                            (t1, Err("expected ',' or '}' got "@ + byte_debug(peek_at(s, q))))
                        }
                    },
                }
            },
        },
    }
}

/// A whole document: its nodes, or the nodes read before the first fault
/// and that fault's message.
pub open spec fn parse_spec(s: Seq<u8>) -> (Seq<NodeV>, Result<(), Seq<char>>) {
    let (t, r) = value_spec(s, 0, 0);
    match r {
        Err(m) => (t, Err(m)),
        Ok(e) => if ws_end(s, e) != s.len() {
            (t, Err("trailing garbage at pos "@ + dec(ws_end(s, e) as nat)))
        } else {
            (t, Ok(()))
        },
    }
}

} // verus!

verus! {

proof fn lemma_ws_end(s: Seq<u8>, p: int)
    requires
        0 <= p,
    ensures
        p <= ws_end(s, p),
        ws_end(s, ws_end(s, p)) == ws_end(s, p),
        p <= s.len() ==> ws_end(s, p) <= s.len(),
    decreases s.len() - p,
{
    if 0 <= p < s.len() && is_ws(s[p]) {
        lemma_ws_end(s, p + 1);
    }
}

/// The characters of the bytes `src[a..b]`, each byte read as a character.
fn bytes_text(src: &[u8], a: usize, b: usize) -> (t: String)
    requires
        a <= b <= src@.len(),
    ensures
        t@ == byte_text(src@, a as int, b as int),
{
    let mut t = String::new();
    let mut i: usize = a;
    while i < b
        invariant
            a <= i <= b,
            b <= src@.len(),
            t@ == byte_text(src@, a as int, i as int),
        decreases b - i,
    {
        let ghost before = t@;
        push_char(&mut t, src[i] as char);
        proof {
            assert(byte_text(src@, a as int, i + 1) =~= before.push(src@[i as int] as char));
        }
        i += 1;
    }
    t
}

impl<'a> Parser<'a> {
    /// Skips a run of decimal digits.
    fn skip_digits(&mut self)
        requires
            old(self).wf(),
        ensures
            final(self).at() == digits_end(old(self).bytes(), old(self).at()),
            final(self).at() >= old(self).at(),
            final(self).bytes() == old(self).bytes(),
            final(self).level() == old(self).level(),
            final(self).wf(),
    {
        loop
            invariant
                self.wf(),
                self.at() >= old(self).at(),
                self.bytes() == old(self).bytes(),
                self.level() == old(self).level(),
                digits_end(self.bytes(), self.at()) == digits_end(old(self).bytes(), old(self).at()),
            decreases self.bytes().len() - self.at(),
        {
            match self.peek() {
                Some(b) => {
                    if 48 <= b && b <= 57 {
                        self.advance();
                    } else {
                        return;
                    }
                },
                None => {
                    return;
                },
            }
        }
    }

    /// Matches the keyword `kw` byte for byte and records `node` for it.
    fn parse_literal(&mut self, kw: &str, node: Node, out: &mut Vec<Node>) -> (r: Result<(), String>)
        requires
            old(self).wf(),
        ensures
            final(self).bytes() == old(self).bytes(),
            final(self).level() == old(self).level(),
            match literal_spec(old(self).bytes(), old(self).at(), kw@) {
                Ok(e) => r is Ok && final(self).at() == e && final(self).wf() && e
                    >= old(self).at() && nodes_view(final(out)@) == nodes_view(old(out)@).push(
                    node@,
                ),
                Err(m) => r matches Err(x) && x@ == m && nodes_view(final(out)@) == nodes_view(
                    old(out)@,
                ),
            },
    {
        let k = kw.as_bytes();
        let n = k.len();
        let mut ok = n <= self.src.len() - self.pos;
        if ok {
            let mut i: usize = 0;
            while i < n
                invariant
                    n == k@.len(),
                    k@ == kw.spec_bytes(),
                    self.wf(),
                    self.pos + n <= self.src@.len(),
                    i <= n,
                    ok == (forall|j: int| 0 <= j < i ==> self.src@[self.pos + j] == k@[j]),
                decreases n - i,
            {
                if self.src[self.pos + i] != k[i] {
                    ok = false;
                }
                i += 1;
            }
            proof {
                if ok {
                    assert(self.src@.subrange(self.pos as int, self.pos + n) =~= k@);
                } else {
                    assert(self.src@.subrange(self.pos as int, self.pos + n) != k@) by {
                        let j = choose|j: int|
                            0 <= j < n && self.src@[self.pos + j] != k@[j];
                        assert(self.src@.subrange(self.pos as int, self.pos + n)[j] != k@[j]);
                    }
                }
            }
        }
        if ok {
            self.pos = self.pos + n;
            emit(out, node);
            Ok(())
        } else {
            let mut m = String::from_str("invalid literal at pos ");
            push_dec(&mut m, self.pos);
            m.append(" (expected \"");
            m.append(kw);
            m.append("\")");
            proof {
                assert(m@ =~= "invalid literal at pos "@ + dec(old(self).at() as nat)
                    + " (expected \""@ + kw@ + "\")"@);
            }
            Err(m)
        }
    }

    /// Reads a number: an optional minus, digits, an optional fraction and
    /// an optional exponent, kept as text; refuses a text that has no digit
    /// or an exponent without digits.
    fn parse_number(&mut self, out: &mut Vec<Node>) -> (r: Result<(), String>)
        requires
            old(self).wf(),
        ensures
            final(self).bytes() == old(self).bytes(),
            final(self).level() == old(self).level(),
            nodes_view(final(out)@) == nodes_view(old(out)@) + number_spec(
                old(self).bytes(),
                old(self).at(),
            ).0,
            match number_spec(old(self).bytes(), old(self).at()).1 {
                Ok(e) => r is Ok && final(self).at() == e && final(self).wf() && e >= old(
                    self,
                ).at(),
                Err(m) => r matches Err(x) && x@ == m,
            },
    {
        let ghost s = self.bytes();
        let ghost p = self.at();
        let start = self.pos;
        match self.peek() {
            Some(b) => {
                if b == 45 {
                    self.advance();
                }
            },
            None => {},
        }
        assert(self.at() == sign_end(s, p));
        let a = self.pos;
        self.skip_digits();
        let i = self.pos;
        assert(i == int_end(s, p));
        let mut frac_digits: usize = 0;
        match self.peek() {
            Some(b) => {
                if b == 46 {
                    self.advance();
                    let f0 = self.pos;
                    self.skip_digits();
                    frac_digits = self.pos - f0;
                }
            },
            None => {},
        }
        assert(self.at() == frac_end(s, p));
        let mut exp_ok = true;
        match self.peek() {
            Some(b) => {
                if b == 101 || b == 69 {
                    self.advance();
                    match self.peek() {
                        Some(c) => {
                            if c == 43 || c == 45 {
                                self.advance();
                            }
                        },
                        None => {},
                    }
                    assert(self.at() == exp_start(s, p));
                    let e0 = self.pos;
                    self.skip_digits();
                    exp_ok = self.pos > e0;
                }
            },
            None => {},
        }
        assert(self.at() == number_end(s, p));
        let text = bytes_text(self.src, start, self.pos);
        if (i - a) + frac_digits >= 1 && exp_ok {
            emit(out, Node::Number(text));
            proof {
                assert(nodes_view(out@) =~= nodes_view(old(out)@) + number_spec(s, p).0);
            }
            Ok(())
        } else {
            proof {
                assert(nodes_view(out@) =~= nodes_view(old(out)@) + number_spec(s, p).0);
            }
            Err(String::from_str("invalid float literal"))
        }
    }
}

} // verus!

verus! {

/// `a` put in front of the nodes of a result.
pub open spec fn glue(a: Seq<NodeV>, r: (Seq<NodeV>, Result<int, Seq<char>>)) -> (
    Seq<NodeV>,
    Result<int, Seq<char>>,
) {
    (a + r.0, r.1)
}

impl<'a> Parser<'a> {
    /// Reads one value, refusing to nest deeper than `MAX_DEPTH`.
    pub fn parse_value(&mut self, out: &mut Vec<Node>) -> (r: Result<(), String>)
        requires
            old(self).wf(),
        ensures
            final(self).bytes() == old(self).bytes(),
            final(self).level() == old(self).level(),
            nodes_view(final(out)@) == nodes_view(old(out)@) + value_spec(
                old(self).bytes(),
                old(self).at(),
                old(self).level(),
            ).0,
            match value_spec(old(self).bytes(), old(self).at(), old(self).level()).1 {
                Ok(e) => r is Ok && final(self).at() == e && final(self).wf() && e >= old(
                    self,
                ).at(),
                Err(m) => r matches Err(x) && x@ == m,
            },
        decreases MAX_DEPTH - old(self).level(), 1int,
    {
        if self.depth >= MAX_DEPTH {
            let mut m = String::from_str("nesting too deep (> 128) at pos ");
            push_dec(&mut m, self.pos);
            proof {
                assert(nodes_view(out@) =~= nodes_view(old(out)@) + Seq::<NodeV>::empty());
            }
            return Err(m);
        }
        self.depth += 1;
        let r = self.parse_value_inner(out);
        self.depth -= 1;
        r
    }

    /// Reads one value once its depth has been counted.
    fn parse_value_inner(&mut self, out: &mut Vec<Node>) -> (r: Result<(), String>)
        requires
            old(self).wf(),
            1 <= old(self).level() <= MAX_DEPTH,
        ensures
            final(self).bytes() == old(self).bytes(),
            final(self).level() == old(self).level(),
            nodes_view(final(out)@) == nodes_view(old(out)@) + inner_spec(
                old(self).bytes(),
                old(self).at(),
                old(self).level(),
            ).0,
            match inner_spec(old(self).bytes(), old(self).at(), old(self).level()).1 {
                Ok(e) => r is Ok && final(self).at() == e && final(self).wf() && e >= old(
                    self,
                ).at(),
                Err(m) => r matches Err(x) && x@ == m,
            },
        decreases MAX_DEPTH - old(self).level(), 4int,
    {
        let ghost s = self.bytes();
        let ghost d = self.level();
        self.skip_ws();
        let ghost q = self.at();
        proof {
            lemma_ws_end(s, old(self).at());
        }
        match self.peek() {
            Some(b) => {
                if b == 34 {
                    match self.parse_string() {
                        Ok(t) => {
                            emit(out, Node::Str(t));
                            proof {
                                assert(nodes_view(out@) =~= nodes_view(old(out)@) + inner_spec(
                                    s,
                                    old(self).at(),
                                    d,
                                ).0);
                            }
                            Ok(())
                        },
                        Err(m) => {
                            proof {
                                assert(nodes_view(out@) =~= nodes_view(old(out)@) + inner_spec(
                                    s,
                                    old(self).at(),
                                    d,
                                ).0);
                            }
                            Err(m)
                        },
                    }
                } else if b == 123 {
                    self.parse_object(out)
                } else if b == 91 {
                    self.parse_array(out)
                } else if b == 116 || b == 102 || b == 110 {
                    let r = if b == 116 {
                        self.parse_literal("true", Node::Bool(true), out)
                    } else if b == 102 {
                        self.parse_literal("false", Node::Bool(false), out)
                    } else {
                        self.parse_literal("null", Node::Null, out)
                    };
                    proof {
                        assert(nodes_view(out@) =~= nodes_view(old(out)@) + inner_spec(
                            s,
                            old(self).at(),
                            d,
                        ).0);
                    }
                    r
                } else if b == 45 || (48 <= b && b <= 57) {
                    self.parse_number(out)
                } else {
                    let mut m = String::from_str("unexpected ");
                    push_byte_debug(&mut m, Some(b));
                    m.append(" at pos ");
                    push_dec(&mut m, self.pos);
                    proof {
                        assert(nodes_view(out@) =~= nodes_view(old(out)@) + Seq::<NodeV>::empty());
                    }
                    Err(m)
                }
            },
            None => {
                let mut m = String::from_str("unexpected ");
                push_byte_debug(&mut m, None);
                m.append(" at pos ");
                push_dec(&mut m, self.pos);
                proof {
                    assert(nodes_view(out@) =~= nodes_view(old(out)@) + Seq::<NodeV>::empty());
                }
                Err(m)
            },
        }
    }

    /// Reads an array; its elements are values one level deeper.
    #[verifier::rlimit(60)]
    fn parse_array(&mut self, out: &mut Vec<Node>) -> (r: Result<(), String>)
        requires
            old(self).wf(),
            1 <= old(self).level() <= MAX_DEPTH,
        ensures
            final(self).bytes() == old(self).bytes(),
            final(self).level() == old(self).level(),
            nodes_view(final(out)@) == nodes_view(old(out)@) + array_spec(
                old(self).bytes(),
                old(self).at(),
                old(self).level(),
            ).0,
            match array_spec(old(self).bytes(), old(self).at(), old(self).level()).1 {
                Ok(e) => r is Ok && final(self).at() == e && final(self).wf() && e >= old(
                    self,
                ).at(),
                Err(m) => r matches Err(x) && x@ == m,
            },
        decreases MAX_DEPTH - old(self).level(), 3int,
    {
        let ghost s = self.bytes();
        let ghost d = self.level();
        let ghost p0 = self.at();
        let ghost out0 = nodes_view(out@);
        match self.expect(91) {
            Ok(()) => {},
            Err(m) => {
                proof {
                    assert(nodes_view(out@) =~= out0 + Seq::<NodeV>::empty());
                }
                return Err(m);
            },
        }
        emit(out, Node::BeginArray);
        self.skip_ws();
        let ghost q2 = self.at();
        match self.peek() {
            Some(b) => {
                if b == 93 {
                    self.advance();
                    emit(out, Node::EndArray);
                    proof {
                        assert(nodes_view(out@) =~= out0 + array_spec(s, p0, d).0);
                    }
                    return Ok(());
                }
            },
            None => {},
        }
        let ghost base = nodes_view(out@);
        let ghost mut done: Seq<NodeV> = Seq::empty();
        proof {
            lemma_array_open(s, p0, d);
            assert(base =~= out0 + seq![NodeV::BeginArray]);
            assert(nodes_view(out@) =~= base + done);
            assert(Seq::<NodeV>::empty() + items_spec(s, q2, d).0 =~= items_spec(s, q2, d).0);
        }
        loop
            invariant
                self.wf(),
                self.bytes() == s,
                self.level() == d,
                1 <= d <= MAX_DEPTH,
                s == old(self).bytes(),
                d == old(self).level(),
                p0 == old(self).at(),
                self.at() >= q2 > p0,
                out0 == nodes_view(old(out)@),
                base == out0 + seq![NodeV::BeginArray],
                array_spec(s, p0, d) == glue(seq![NodeV::BeginArray], items_spec(s, q2, d)),
                nodes_view(out@) == base + done,
                items_spec(s, q2, d) == glue(done, items_spec(s, self.at(), d)),
            decreases s.len() - self.at(),
        {
            let ghost p = self.at();
            let r = self.parse_value(out);
            let ghost t1 = value_spec(s, p, d).0;
            proof {
                assert(nodes_view(out@) =~= base + (done + t1));
            }
            match r {
                Err(m) => {
                    proof {
                        lemma_items_err(s, p, d);
                        assert(nodes_view(out@) =~= out0 + array_spec(s, p0, d).0);
                    }
                    return Err(m);
                },
                Ok(()) => {},
            }
            self.skip_ws();
            let ghost q = self.at();
            match self.peek() {
                Some(c) => {
                    if c == 44 {
                        self.advance();
                        proof {
                            lemma_items_next(s, p, d);
                            assert((done + t1) + items_spec(s, q + 1, d).0 =~= done + (t1
                                + items_spec(s, q + 1, d).0));
                            done = done + t1;
                        }
                        continue;
                    } else if c == 93 {
                        self.advance();
                        emit(out, Node::EndArray);
                        proof {
                            lemma_items_close(s, p, d);
                            assert(nodes_view(out@) =~= out0 + array_spec(s, p0, d).0);
                        }
                        return Ok(());
                    }
                },
                None => {},
            }
            let mut m = String::from_str("expected ',' or ']' got ");
            push_byte_debug(&mut m, self.peek());
            proof {
                lemma_items_bad(s, p, d);
                assert(nodes_view(out@) =~= out0 + array_spec(s, p0, d).0);
            }
            return Err(m);
        }
    }

    /// Reads an object; member values are one level deeper.
    #[verifier::rlimit(100)]
    fn parse_object(&mut self, out: &mut Vec<Node>) -> (r: Result<(), String>)
        requires
            old(self).wf(),
            1 <= old(self).level() <= MAX_DEPTH,
        ensures
            final(self).bytes() == old(self).bytes(),
            final(self).level() == old(self).level(),
            nodes_view(final(out)@) == nodes_view(old(out)@) + object_spec(
                old(self).bytes(),
                old(self).at(),
                old(self).level(),
            ).0,
            match object_spec(old(self).bytes(), old(self).at(), old(self).level()).1 {
                Ok(e) => r is Ok && final(self).at() == e && final(self).wf() && e >= old(
                    self,
                ).at(),
                Err(m) => r matches Err(x) && x@ == m,
            },
        decreases MAX_DEPTH - old(self).level(), 3int,
    {
        let ghost s = self.bytes();
        let ghost d = self.level();
        let ghost p0 = self.at();
        let ghost out0 = nodes_view(out@);
        match self.expect(123) {
            Ok(()) => {},
            Err(m) => {
                proof {
                    assert(nodes_view(out@) =~= out0 + Seq::<NodeV>::empty());
                }
                return Err(m);
            },
        }
        emit(out, Node::BeginObject);
        self.skip_ws();
        let ghost q2 = self.at();
        match self.peek() {
            Some(b) => {
                if b == 125 {
                    self.advance();
                    emit(out, Node::EndObject);
                    proof {
                        assert(nodes_view(out@) =~= out0 + object_spec(s, p0, d).0);
                    }
                    return Ok(());
                }
            },
            None => {},
        }
        let ghost base = nodes_view(out@);
        let ghost mut done: Seq<NodeV> = Seq::empty();
        proof {
            lemma_object_open(s, p0, d);
            assert(base =~= out0 + seq![NodeV::BeginObject]);
            assert(nodes_view(out@) =~= base + done);
            assert(Seq::<NodeV>::empty() + members_spec(s, q2, d).0 =~= members_spec(s, q2, d).0);
        }
        loop
            invariant
                self.wf(),
                self.bytes() == s,
                self.level() == d,
                1 <= d <= MAX_DEPTH,
                s == old(self).bytes(),
                d == old(self).level(),
                p0 == old(self).at(),
                self.at() >= q2 > p0,
                out0 == nodes_view(old(out)@),
                base == out0 + seq![NodeV::BeginObject],
                object_spec(s, p0, d) == glue(seq![NodeV::BeginObject], members_spec(s, q2, d)),
                nodes_view(out@) == base + done,
                members_spec(s, q2, d) == glue(done, members_spec(s, self.at(), d)),
            decreases s.len() - self.at(),
        {
            let ghost p = self.at();
            self.skip_ws();
            proof {
                lemma_ws_end(s, p);
            }
            let key = match self.parse_string() {
                Ok(k) => k,
                Err(m) => {
                    proof {
                        lemma_members_key_err(s, p, d);
                        assert(nodes_view(out@) =~= out0 + object_spec(s, p0, d).0);
                    }
                    return Err(m);
                },
            };
            let ghost k = key@;
            emit(out, Node::Key(key));
            match self.expect(58) {
                Ok(()) => {},
                Err(m) => {
                    proof {
                        lemma_members_colon_err(s, p, d);
                        assert(nodes_view(out@) =~= out0 + object_spec(s, p0, d).0);
                    }
                    return Err(m);
                },
            }
            let ghost e2 = self.at();
            let r = self.parse_value(out);
            let ghost t1 = seq![NodeV::Key(k)] + value_spec(s, e2, d).0;
            proof {
                assert(nodes_view(out@) =~= base + (done + t1));
            }
            match r {
                Err(m) => {
                    proof {
                        lemma_members_value_err(s, p, d);
                        assert(nodes_view(out@) =~= out0 + object_spec(s, p0, d).0);
                    }
                    return Err(m);
                },
                Ok(()) => {},
            }
            self.skip_ws();
            let ghost q = self.at();
            match self.peek() {
                Some(c) => {
                    if c == 44 {
                        self.advance();
                        proof {
                            lemma_members_next(s, p, d);
                            assert((done + t1) + members_spec(s, q + 1, d).0 =~= done + (t1
                                + members_spec(s, q + 1, d).0));
                            done = done + t1;
                        }
                        continue;
                    } else if c == 125 {
                        self.advance();
                        emit(out, Node::EndObject);
                        proof {
                            lemma_members_close(s, p, d);
                            assert(nodes_view(out@) =~= out0 + object_spec(s, p0, d).0);
                        }
                        return Ok(());
                    }
                },
                None => {},
            }
            let mut m = String::from_str("expected ',' or '}' got ");
            push_byte_debug(&mut m, self.peek());
            proof {
                lemma_members_bad(s, p, d);
                assert(nodes_view(out@) =~= out0 + object_spec(s, p0, d).0);
            }
            return Err(m);
        }
    }
}

proof fn lemma_array_open(s: Seq<u8>, p: int, d: int)
    requires
        expect_spec(s, p, 91) is Ok,
        !byte_is(s, ws_end(s, expect_spec(s, p, 91)->Ok_0), 93),
    ensures
        array_spec(s, p, d) == glue(
            seq![NodeV::BeginArray],
            items_spec(s, ws_end(s, expect_spec(s, p, 91)->Ok_0), d),
        ),
{
}

proof fn lemma_object_open(s: Seq<u8>, p: int, d: int)
    requires
        expect_spec(s, p, 123) is Ok,
        !byte_is(s, ws_end(s, expect_spec(s, p, 123)->Ok_0), 125),
    ensures
        object_spec(s, p, d) == glue(
            seq![NodeV::BeginObject],
            members_spec(s, ws_end(s, expect_spec(s, p, 123)->Ok_0), d),
        ),
{
}

proof fn lemma_items_err(s: Seq<u8>, p: int, d: int)
    requires
        value_spec(s, p, d).1 is Err,
    ensures
        items_spec(s, p, d) == value_spec(s, p, d),
{
}

proof fn lemma_items_next(s: Seq<u8>, p: int, d: int)
    requires
        value_spec(s, p, d).1 is Ok,
        value_spec(s, p, d).1->Ok_0 >= p,
        p >= 0,
        byte_is(s, ws_end(s, value_spec(s, p, d).1->Ok_0), 44),
    ensures
        items_spec(s, p, d) == glue(
            value_spec(s, p, d).0,
            items_spec(s, ws_end(s, value_spec(s, p, d).1->Ok_0) + 1, d),
        ),
{
    lemma_ws_end(s, value_spec(s, p, d).1->Ok_0);
}

proof fn lemma_items_close(s: Seq<u8>, p: int, d: int)
    requires
        value_spec(s, p, d).1 is Ok,
        byte_is(s, ws_end(s, value_spec(s, p, d).1->Ok_0), 93),
    ensures
        items_spec(s, p, d) == (
            value_spec(s, p, d).0.push(NodeV::EndArray),
            Ok::<int, Seq<char>>(ws_end(s, value_spec(s, p, d).1->Ok_0) + 1),
        ),
{
}

proof fn lemma_items_bad(s: Seq<u8>, p: int, d: int)
    requires
        value_spec(s, p, d).1 is Ok,
        !byte_is(s, ws_end(s, value_spec(s, p, d).1->Ok_0), 44),
        !byte_is(s, ws_end(s, value_spec(s, p, d).1->Ok_0), 93),
    ensures
        items_spec(s, p, d) == (
            value_spec(s, p, d).0,
            Err::<int, Seq<char>>(
                "expected ',' or ']' got "@ + byte_debug(
                    peek_at(s, ws_end(s, value_spec(s, p, d).1->Ok_0)),
                ),
            ),
        ),
{
}

proof fn lemma_members_key_err(s: Seq<u8>, p: int, d: int)
    requires
        string_spec(s, p) is Err,
    ensures
        members_spec(s, p, d) == (Seq::<NodeV>::empty(), Err::<int, Seq<char>>(
            string_spec(s, p)->Err_0,
        )),
{
}

proof fn lemma_members_colon_err(s: Seq<u8>, p: int, d: int)
    requires
        string_spec(s, p) is Ok,
        expect_spec(s, string_spec(s, p)->Ok_0.1, 58) is Err,
    ensures
        members_spec(s, p, d) == (seq![NodeV::Key(string_spec(s, p)->Ok_0.0)], Err::<
            int,
            Seq<char>,
        >(expect_spec(s, string_spec(s, p)->Ok_0.1, 58)->Err_0)),
{
}

/// The position where the value of the first member at `p` starts.
spec fn member_value_at(s: Seq<u8>, p: int) -> int {
    expect_spec(s, string_spec(s, p)->Ok_0.1, 58)->Ok_0
}

/// The nodes of the first member at `p`: its key and its value's nodes.
spec fn member_nodes(s: Seq<u8>, p: int, d: int) -> Seq<NodeV> {
    seq![NodeV::Key(string_spec(s, p)->Ok_0.0)] + value_spec(s, member_value_at(s, p), d).0
}

proof fn lemma_members_value_err(s: Seq<u8>, p: int, d: int)
    requires
        string_spec(s, p) is Ok,
        expect_spec(s, string_spec(s, p)->Ok_0.1, 58) is Ok,
        value_spec(s, member_value_at(s, p), d).1 is Err,
    ensures
        members_spec(s, p, d) == (member_nodes(s, p, d), value_spec(
            s,
            member_value_at(s, p),
            d,
        ).1),
{
}

proof fn lemma_members_next(s: Seq<u8>, p: int, d: int)
    requires
        string_spec(s, p) is Ok,
        expect_spec(s, string_spec(s, p)->Ok_0.1, 58) is Ok,
        value_spec(s, member_value_at(s, p), d).1 is Ok,
        value_spec(s, member_value_at(s, p), d).1->Ok_0 >= p,
        p >= 0,
        byte_is(s, ws_end(s, value_spec(s, member_value_at(s, p), d).1->Ok_0), 44),
    ensures
        members_spec(s, p, d) == glue(
            member_nodes(s, p, d),
            members_spec(s, ws_end(s, value_spec(s, member_value_at(s, p), d).1->Ok_0) + 1, d),
        ),
{
    lemma_ws_end(s, value_spec(s, member_value_at(s, p), d).1->Ok_0);
}

proof fn lemma_members_close(s: Seq<u8>, p: int, d: int)
    requires
        string_spec(s, p) is Ok,
        expect_spec(s, string_spec(s, p)->Ok_0.1, 58) is Ok,
        value_spec(s, member_value_at(s, p), d).1 is Ok,
        byte_is(s, ws_end(s, value_spec(s, member_value_at(s, p), d).1->Ok_0), 125),
    ensures
        members_spec(s, p, d) == (
            member_nodes(s, p, d).push(NodeV::EndObject),
            Ok::<int, Seq<char>>(ws_end(s, value_spec(s, member_value_at(s, p), d).1->Ok_0) + 1),
        ),
{
}

proof fn lemma_members_bad(s: Seq<u8>, p: int, d: int)
    requires
        string_spec(s, p) is Ok,
        expect_spec(s, string_spec(s, p)->Ok_0.1, 58) is Ok,
        value_spec(s, member_value_at(s, p), d).1 is Ok,
        !byte_is(s, ws_end(s, value_spec(s, member_value_at(s, p), d).1->Ok_0), 44),
        !byte_is(s, ws_end(s, value_spec(s, member_value_at(s, p), d).1->Ok_0), 125),
    ensures
        members_spec(s, p, d) == (
            member_nodes(s, p, d),
            Err::<int, Seq<char>>(
                "expected ',' or '}' got "@ + byte_debug(
                    peek_at(s, ws_end(s, value_spec(s, member_value_at(s, p), d).1->Ok_0)),
                ),
            ),
        ),
{
}

} // verus!

verus! {

/// Parses a whole JSON document, nested at most `MAX_DEPTH` deep, into its
/// nodes. On failure it gives the message of the first fault together with
/// the nodes read before it.
pub fn parse_nodes(input: &str) -> (r: Result<Vec<Node>, (String, Vec<Node>)>)
    requires
        input.spec_bytes().len() <= isize::MAX,
    ensures
        match parse_spec(input.spec_bytes()) {
            (t, Ok(())) => r matches Ok(v) && nodes_view(v@) == t,
            (t, Err(m)) => r matches Err((e, v)) && e@ == m && nodes_view(v@) == t,
        },
{
    let mut p = Parser::new(input);
    let mut out: Vec<Node> = Vec::new();
    proof {
        assert(nodes_view(out@) =~= Seq::<NodeV>::empty());
    }
    match p.parse_value(&mut out) {
        Ok(()) => {},
        Err(m) => {
            proof {
                assert(nodes_view(out@) =~= value_spec(input.spec_bytes(), 0, 0).0);
            }
            return Err((m, out));
        },
    }
    proof {
        assert(nodes_view(out@) =~= value_spec(input.spec_bytes(), 0, 0).0);
    }
    p.skip_ws();
    if p.pos != p.src.len() {
        let mut m = String::from_str("trailing garbage at pos ");
        push_dec(&mut m, p.pos);
        return Err((m, out));
    }
    Ok(out)
}

} // verus!

verus! {

proof fn lemma_escape_cons(c: char, t: Seq<char>)
    ensures
        escape_spec(seq![c] + t) == escape_char(c) + escape_spec(t),
    decreases t.len(),
{
    if t.len() == 0 {
        assert((seq![c] + t).drop_last() =~= Seq::<char>::empty());
        assert(seq![c] + t =~= seq![c]);
        assert(seq![c].drop_last() =~= Seq::<char>::empty());
        assert(escape_spec(Seq::<char>::empty()) == Seq::<char>::empty());
        assert(escape_spec(seq![c]) == escape_spec(Seq::<char>::empty()) + escape_char(c));
        assert(escape_char(c) + escape_spec(t) =~= escape_char(c));
        assert(Seq::<char>::empty() + escape_char(c) =~= escape_char(c));
    } else {
        assert((seq![c] + t).drop_last() =~= seq![c] + t.drop_last());
        assert((seq![c] + t).last() == t.last());
        lemma_escape_cons(c, t.drop_last());
        assert(escape_char(c) + escape_spec(t.drop_last()) + escape_char(t.last()) =~= escape_char(
            c,
        ) + (escape_spec(t.drop_last()) + escape_char(t.last())));
    }
}

proof fn lemma_encode_concat(a: Seq<char>, b: Seq<char>)
    ensures
        vstd::utf8::encode_utf8(a + b) == vstd::utf8::encode_utf8(a) + vstd::utf8::encode_utf8(b),
    decreases a.len(),
{
    if a.len() == 0 {
        assert(a + b =~= b);
        assert(Seq::<u8>::empty() + vstd::utf8::encode_utf8(b) =~= vstd::utf8::encode_utf8(b));
    } else {
        assert((a + b).drop_first() =~= a.drop_first() + b);
        lemma_encode_concat(a.drop_first(), b);
        assert((a + b)[0] == a[0]);
        assert(vstd::utf8::encode_scalar(a[0] as u32) + (vstd::utf8::encode_utf8(a.drop_first())
            + vstd::utf8::encode_utf8(b)) =~= (vstd::utf8::encode_scalar(a[0] as u32)
            + vstd::utf8::encode_utf8(a.drop_first())) + vstd::utf8::encode_utf8(b));
    }
}

/// The UTF-8 bytes of an ASCII character.
proof fn lemma_encode_ascii(c: char)
    requires
        (c as u32) < 0x80,
    ensures
        vstd::utf8::encode_utf8(seq![c]) == seq![(c as u32) as u8],
        vstd::utf8::encode_scalar(c as u32) == seq![(c as u32) as u8],
        ((c as u32) as u8) as char == c,
{
    assert(seq![c].drop_first() =~= Seq::<char>::empty());
    let u = c as u32;
    assert(vstd::utf8::has_width_1_encoding(u));
    assert(vstd::utf8::encode_scalar(u) == seq![vstd::utf8::leading_byte_width_1(u)]);
    assert(vstd::utf8::encode_utf8(Seq::<char>::empty()) == Seq::<u8>::empty());
    assert(vstd::utf8::encode_utf8(seq![c]) == vstd::utf8::encode_scalar(u)
        + vstd::utf8::encode_utf8(Seq::<char>::empty()));
    assert(vstd::utf8::leading_byte_width_1(u) == u as u8) by (bit_vector)
        requires
            u < 0x80,
    ;
    assert(seq![(c as u32) as u8] + Seq::<u8>::empty() =~= seq![(c as u32) as u8]);
}

/// The UTF-8 bytes of an ASCII text are its characters' codes.
proof fn lemma_encode_ascii_seq(t: Seq<char>)
    requires
        forall|i: int| 0 <= i < t.len() ==> (#[trigger] t[i] as u32) < 0x80,
    ensures
        vstd::utf8::encode_utf8(t).len() == t.len(),
        forall|i: int|
            0 <= i < t.len() ==> vstd::utf8::encode_utf8(t)[i] == (#[trigger] t[i] as u32) as u8
                && (((t[i] as u32) as u8) as char) == t[i],
    decreases t.len(),
{
    if t.len() > 0 {
        lemma_encode_ascii(t[0]);
        lemma_encode_ascii_seq(t.drop_first());
        let e = vstd::utf8::encode_utf8(t);
        assert(e == seq![(t[0] as u32) as u8] + vstd::utf8::encode_utf8(t.drop_first()));
        assert forall|i: int| 0 <= i < t.len() implies e[i] == (#[trigger] t[i] as u32) as u8
            && (((t[i] as u32) as u8) as char) == t[i] by {
            if i > 0 {
                assert(t.drop_first()[i - 1] == t[i]);
            }
        }
    }
}

proof fn lemma_hex_digit_value(d: int)
    requires
        0 <= d < 16,
    ensures
        hex_value(hex_digit(d)) == Some(d),
        (hex_digit(d) as u32) < 0x80,
{
}

/// Reading the bytes of one escaped character gives back the character.
proof fn lemma_body_step(s: Seq<u8>, p: int, c: char)
    requires
        0 <= p,
        p + vstd::utf8::encode_utf8(escape_char(c)).len() <= s.len(),
        s.subrange(p, p + vstd::utf8::encode_utf8(escape_char(c)).len())
            == vstd::utf8::encode_utf8(escape_char(c)),
    ensures
        string_body(s, p) == prepend(
            seq![c],
            string_body(s, p + vstd::utf8::encode_utf8(escape_char(c)).len()),
        ),
{
    let e = escape_char(c);
    let b = vstd::utf8::encode_utf8(e);
    let k = b.len() as int;
    assert forall|i: int| 0 <= i < k implies s[p + i] == #[trigger] b[i] by {
        assert(s.subrange(p, p + k)[i] == s[p + i]);
    }
    let v = c as u32;
    if c == '"' || c == '\\' || c == '\n' || c == '\r' || c == '\t' {
        lemma_encode_ascii_seq(e);
        assert(s[p] == 92u8);
    } else if v < 0x20 {
        lemma_hex_digit_value((v / 16) as int);
        lemma_hex_digit_value((v % 16) as int);
        lemma_encode_ascii_seq(e);
        assert(s[p] == 92u8);
        assert(s[p + 1] == 117u8);
        let h = hex_text(s, p + 2);
        assert(h[0] == e[2]);
        assert(h[1] == e[3]);
        assert(h[2] == e[4]);
        assert(h[3] == e[5]);
        assert(h =~= seq!['0', '0', hex_digit((v / 16) as int), hex_digit((v % 16) as int)]);
        let h1 = h.drop_last().drop_last().drop_last();
        assert(h1 =~= seq!['0']);
        assert(h1.drop_last() =~= Seq::<char>::empty());
        assert(hex_digits(Seq::<char>::empty()) == Some(0int));
        assert(hex_value('0') == Some(0int));
        assert(hex_digits(h1) == Some(0int));
        let h2 = h.drop_last().drop_last();
        assert(h2.drop_last() =~= h1);
        assert(h2.last() == '0');
        assert(hex_digits(h2) == Some(0int));
        assert(hex_digits(h.drop_last()) == Some((v / 16) as int));
        assert(hex_digits(h) == Some(v as int));
        assert(radix16(h) == Some(v as int));
        vstd::utf8::char_u32_cast(c, v);
        assert(scalar_or_replacement(v as int) == c);
    } else {
        assert(e == seq![c]);
        vstd::utf8::encode_utf8_first_scalar(seq![c]);
        vstd::utf8::encode_utf8_valid_utf8(seq![c]);
        vstd::utf8::encode_utf8_decode_utf8(seq![c]);
        assert(seq![c].drop_first() =~= Seq::<char>::empty());
        assert(b == vstd::utf8::encode_scalar(v) + vstd::utf8::encode_utf8(Seq::<char>::empty()));
        assert(b =~= vstd::utf8::encode_scalar(v));
        let b0 = b[0];
        assert(utf8_len_spec(b0) == k);
        if vstd::utf8::is_leading_byte_width_1(b0) {
            assert(b0 & 0x7f == b0) by (bit_vector)
                requires
                    b0 <= 0x7f,
            ;
            assert(b0 as u32 == v);
        }
        assert(s[p] == b0);
        assert(b0 != 34 && b0 != 92);
        assert(s.subrange(p, p + k) == b);
        assert(utf8_piece(b) == seq![c]);
    }
}

proof fn lemma_body_escaped(s: Seq<u8>, p: int, t: Seq<char>)
    requires
        0 <= p,
        p + vstd::utf8::encode_utf8(escape_spec(t)).len() <= s.len(),
        s.subrange(p, p + vstd::utf8::encode_utf8(escape_spec(t)).len())
            == vstd::utf8::encode_utf8(escape_spec(t)),
    ensures
        string_body(s, p) == prepend(
            t,
            string_body(s, p + vstd::utf8::encode_utf8(escape_spec(t)).len()),
        ),
    decreases t.len(),
{
    if t.len() == 0 {
        assert(escape_spec(t) == Seq::<char>::empty());
        assert(vstd::utf8::encode_utf8(Seq::<char>::empty()) == Seq::<u8>::empty());
        lemma_prepend_empty(string_body(s, p));
        assert(t =~= Seq::<char>::empty());
    } else {
        let c = t[0];
        let rest = t.drop_first();
        assert(t =~= seq![c] + rest);
        lemma_escape_cons(c, rest);
        lemma_encode_concat(escape_char(c), escape_spec(rest));
        let b0 = vstd::utf8::encode_utf8(escape_char(c));
        let b1 = vstd::utf8::encode_utf8(escape_spec(rest));
        let k0 = b0.len() as int;
        let k = k0 + b1.len();
        assert(vstd::utf8::encode_utf8(escape_spec(t)) == b0 + b1);
        assert(s.subrange(p, p + k0) =~= b0) by {
            assert(s.subrange(p, p + k0) =~= s.subrange(p, p + k).subrange(0, k0));
        }
        assert(s.subrange(p + k0, p + k) =~= b1) by {
            assert(s.subrange(p + k0, p + k) =~= s.subrange(p, p + k).subrange(k0, k));
        }
        lemma_body_step(s, p, c);
        lemma_body_escaped(s, p + k0, rest);
        lemma_prepend_twice(seq![c], rest, string_body(s, p + k));
    }
}

/// Escaping any text and putting it between double quotes gives a JSON
/// document that parses back to exactly that text.
pub proof fn lemma_escape_parse_roundtrip(t: Seq<char>)
    ensures
        parse_spec(vstd::utf8::encode_utf8(seq!['"'] + escape_spec(t) + seq!['"'])) == (
            seq![NodeV::Str(t)],
            Ok::<(), Seq<char>>(()),
        ),
{
    let e = vstd::utf8::encode_utf8(escape_spec(t));
    let k = e.len() as int;
    lemma_encode_concat(seq!['"'] + escape_spec(t), seq!['"']);
    lemma_encode_concat(seq!['"'], escape_spec(t));
    lemma_encode_ascii('"');
    let s = vstd::utf8::encode_utf8(seq!['"'] + escape_spec(t) + seq!['"']);
    assert(s == seq![34u8] + e + seq![34u8]);
    assert(s.len() == k + 2);
    assert(s[0] == 34u8);
    assert(s[k + 1] == 34u8);
    assert(s.subrange(1, 1 + k) =~= e);
    lemma_body_escaped(s, 1, t);
    assert(string_body(s, 1 + k) == Ok::<(Seq<char>, int), Seq<char>>((Seq::<char>::empty(), k + 2)));
    assert(t + Seq::<char>::empty() =~= t);
    assert(string_body(s, 1) == Ok::<(Seq<char>, int), Seq<char>>((t, k + 2)));
    assert(ws_end(s, 0) == 0);
    assert(expect_spec(s, 0, 34) == Ok::<int, Seq<char>>(1));
    assert(string_spec(s, 0) == Ok::<(Seq<char>, int), Seq<char>>((t, k + 2)));
    assert(inner_spec(s, 0, 1) == (seq![NodeV::Str(t)], Ok::<int, Seq<char>>(k + 2)));
    assert(value_spec(s, 0, 0) == (seq![NodeV::Str(t)], Ok::<int, Seq<char>>(k + 2)));
    assert(ws_end(s, k + 2) == k + 2);
}

/// The escaped form of any text holds no control character (below U+0020).
pub proof fn lemma_escape_has_no_control(t: Seq<char>)
    ensures
        forall|i: int| 0 <= i < escape_spec(t).len() ==> (#[trigger] escape_spec(t)[i] as u32) >= 0x20,
    decreases t.len(),
{
    if t.len() > 0 {
        lemma_escape_has_no_control(t.drop_last());
        let a = escape_spec(t.drop_last());
        let b = escape_char(t.last());
        assert forall|j: int| 0 <= j < b.len() implies (#[trigger] b[j] as u32) >= 0x20 by {
            let v = t.last() as u32;
            if v < 0x20 && t.last() != '\n' && t.last() != '\r' && t.last() != '\t' {
                lemma_hex_digit_value((v / 16) as int);
                lemma_hex_digit_value((v % 16) as int);
            }
        }
        assert forall|i: int| 0 <= i < escape_spec(t).len() implies (#[trigger] escape_spec(t)[i] as u32)
            >= 0x20 by {
            if i >= a.len() {
                assert(escape_spec(t)[i] == b[i - a.len()]);
            } else {
                assert(escape_spec(t)[i] == a[i]);
            }
        }
    }
}

/// A node that starts a value.
pub open spec fn starts_value(n: NodeV) -> bool {
    match n {
        NodeV::Null | NodeV::Bool(_) | NodeV::Number(_) | NodeV::Str(_) | NodeV::BeginArray
        | NodeV::BeginObject => true,
        _ => false,
    }
}

/// Where the value whose nodes start at `i` ends, if `t` holds a whole
/// value there.
pub open spec fn value_end(t: Seq<NodeV>, i: int) -> Option<int>
    decreases t.len() - i, 1int,
{
    if i < 0 || i >= t.len() {
        None
    } else {
        match t[i] {
            NodeV::Null | NodeV::Bool(_) | NodeV::Number(_) | NodeV::Str(_) => Some(i + 1),
            NodeV::BeginArray => items_end(t, i + 1),
            NodeV::BeginObject => members_end(t, i + 1),
            _ => None,
        }
    }
}

/// Where the elements from `i` and the `EndArray` after them end.
pub open spec fn items_end(t: Seq<NodeV>, i: int) -> Option<int>
    decreases t.len() - i, 2int,
{
    if i < 0 || i >= t.len() {
        None
    } else if t[i] is EndArray {
        Some(i + 1)
    } else {
        match value_end(t, i) {
            Some(j) => if i < j <= t.len() {
                items_end(t, j)
            } else {
                None
            },
            None => None,
        }
    }
}

/// Where the members (each a `Key` and a value) from `i` and the
/// `EndObject` after them end.
pub open spec fn members_end(t: Seq<NodeV>, i: int) -> Option<int>
    decreases t.len() - i, 2int,
{
    if i < 0 || i >= t.len() {
        None
    } else if t[i] is EndObject {
        Some(i + 1)
    } else if t[i] is Key {
        match value_end(t, i + 1) {
            Some(j) => if i < j <= t.len() {
                members_end(t, j)
            } else {
                None
            },
            None => None,
        }
    } else {
        None
    }
}

/// `t` holds the nodes `n` from position `i` on.
pub open spec fn holds_at(t: Seq<NodeV>, i: int, n: Seq<NodeV>) -> bool {
    0 <= i && i + n.len() <= t.len() && t.subrange(i, i + n.len()) == n
}

proof fn lemma_holds_split(t: Seq<NodeV>, i: int, a: Seq<NodeV>, b: Seq<NodeV>)
    requires
        holds_at(t, i, a + b),
    ensures
        holds_at(t, i, a),
        holds_at(t, i + a.len(), b),
{
    let w = t.subrange(i, i + a.len() + b.len());
    assert(w == a + b);
    assert(t.subrange(i, i + a.len()) =~= w.subrange(0, a.len() as int));
    assert(w.subrange(0, a.len() as int) =~= a);
    assert(t.subrange(i + a.len(), i + a.len() + b.len()) =~= w.subrange(
        a.len() as int,
        w.len() as int,
    ));
    assert(w.subrange(a.len() as int, w.len() as int) =~= b);
}

proof fn lemma_value_nodes(s: Seq<u8>, p: int, d: int, t: Seq<NodeV>, i: int)
    requires
        value_spec(s, p, d).1 is Ok,
        holds_at(t, i, value_spec(s, p, d).0),
    ensures
        value_spec(s, p, d).0.len() >= 1,
        starts_value(value_spec(s, p, d).0[0]),
        value_end(t, i) == Some(i + value_spec(s, p, d).0.len()),
    decreases MAX_DEPTH - d, 1int, 0int,
{
    lemma_inner_nodes(s, p, d + 1, t, i);
}

proof fn lemma_inner_nodes(s: Seq<u8>, p: int, d: int, t: Seq<NodeV>, i: int)
    requires
        d <= MAX_DEPTH,
        inner_spec(s, p, d).1 is Ok,
        holds_at(t, i, inner_spec(s, p, d).0),
    ensures
        inner_spec(s, p, d).0.len() >= 1,
        starts_value(inner_spec(s, p, d).0[0]),
        value_end(t, i) == Some(i + inner_spec(s, p, d).0.len()),
    decreases MAX_DEPTH - d, 4int, 0int,
{
    let q = ws_end(s, p);
    let n = inner_spec(s, p, d).0;
    match peek_at(s, q) {
        Some(b) => {
            if b == 123 {
                lemma_object_nodes(s, q, d, t, i);
            } else if b == 91 {
                lemma_array_nodes(s, q, d, t, i);
            } else {
                assert(t[i] == n[0]) by {
                    assert(t.subrange(i, i + n.len())[0] == t[i]);
                }
            }
        },
        None => {},
    }
}

proof fn lemma_array_nodes(s: Seq<u8>, p: int, d: int, t: Seq<NodeV>, i: int)
    requires
        d <= MAX_DEPTH,
        array_spec(s, p, d).1 is Ok,
        holds_at(t, i, array_spec(s, p, d).0),
    ensures
        array_spec(s, p, d).0.len() >= 1,
        array_spec(s, p, d).0[0] is BeginArray,
        value_end(t, i) == Some(i + array_spec(s, p, d).0.len()),
    decreases MAX_DEPTH - d, 3int, 0int,
{
    let n = array_spec(s, p, d).0;
    assert(t[i] == n[0]) by {
        assert(t.subrange(i, i + n.len())[0] == t[i]);
    }
    let q1 = expect_spec(s, p, 91)->Ok_0;
    let q2 = ws_end(s, q1);
    if byte_is(s, q2, 93) {
        assert(t[i + 1] == n[1]) by {
            assert(t.subrange(i, i + n.len())[1] == t[i + 1]);
        }
    } else {
        let rest = items_spec(s, q2, d).0;
        assert(n == seq![NodeV::BeginArray] + rest);
        lemma_holds_split(t, i, seq![NodeV::BeginArray], rest);
        lemma_items_nodes(s, q2, d, t, i + 1);
    }
}

proof fn lemma_object_nodes(s: Seq<u8>, p: int, d: int, t: Seq<NodeV>, i: int)
    requires
        d <= MAX_DEPTH,
        object_spec(s, p, d).1 is Ok,
        holds_at(t, i, object_spec(s, p, d).0),
    ensures
        object_spec(s, p, d).0.len() >= 1,
        object_spec(s, p, d).0[0] is BeginObject,
        value_end(t, i) == Some(i + object_spec(s, p, d).0.len()),
    decreases MAX_DEPTH - d, 3int, 0int,
{
    let n = object_spec(s, p, d).0;
    assert(t[i] == n[0]) by {
        assert(t.subrange(i, i + n.len())[0] == t[i]);
    }
    let q1 = expect_spec(s, p, 123)->Ok_0;
    let q2 = ws_end(s, q1);
    if byte_is(s, q2, 125) {
        assert(t[i + 1] == n[1]) by {
            assert(t.subrange(i, i + n.len())[1] == t[i + 1]);
        }
    } else {
        let rest = members_spec(s, q2, d).0;
        assert(n == seq![NodeV::BeginObject] + rest);
        lemma_holds_split(t, i, seq![NodeV::BeginObject], rest);
        lemma_members_nodes(s, q2, d, t, i + 1);
    }
}

proof fn lemma_items_nodes(s: Seq<u8>, p: int, d: int, t: Seq<NodeV>, i: int)
    requires
        d <= MAX_DEPTH,
        items_spec(s, p, d).1 is Ok,
        holds_at(t, i, items_spec(s, p, d).0),
    ensures
        items_end(t, i) == Some(i + items_spec(s, p, d).0.len()),
    decreases MAX_DEPTH - d, 2int, s.len() - p,
{
    let t1 = value_spec(s, p, d).0;
    let e = value_spec(s, p, d).1->Ok_0;
    let q = ws_end(s, e);
    let n = items_spec(s, p, d).0;
    if byte_is(s, q, 44) && q + 1 > p {
        let t2 = items_spec(s, q + 1, d).0;
        assert(n == t1 + t2);
        lemma_holds_split(t, i, t1, t2);
        lemma_value_nodes(s, p, d, t, i);
        assert(t[i] == t1[0]) by {
            assert(t.subrange(i, i + t1.len())[0] == t[i]);
        }
        lemma_items_nodes(s, q + 1, d, t, i + t1.len());
        assert(!(t[i] is EndArray));
        assert(items_end(t, i) == items_end(t, i + t1.len()));
    } else {
        assert(byte_is(s, q, 93));
        assert(n == t1 + seq![NodeV::EndArray]);
        lemma_holds_split(t, i, t1, seq![NodeV::EndArray]);
        lemma_value_nodes(s, p, d, t, i);
        assert(t[i] == t1[0]) by {
            assert(t.subrange(i, i + t1.len())[0] == t[i]);
        }
        assert(t[i + t1.len()] == NodeV::EndArray) by {
            assert(t.subrange(i + t1.len(), i + t1.len() + 1)[0] == t[i + t1.len()]);
        }
        assert(!(t[i] is EndArray));
        assert(items_end(t, i) == items_end(t, i + t1.len()));
    }
}

#[verifier::rlimit(40)]
proof fn lemma_members_nodes(s: Seq<u8>, p: int, d: int, t: Seq<NodeV>, i: int)
    requires
        d <= MAX_DEPTH,
        members_spec(s, p, d).1 is Ok,
        holds_at(t, i, members_spec(s, p, d).0),
    ensures
        members_end(t, i) == Some(i + members_spec(s, p, d).0.len()),
    decreases MAX_DEPTH - d, 2int, s.len() - p,
{
    let k = string_spec(s, p)->Ok_0.0;
    let e1 = string_spec(s, p)->Ok_0.1;
    let e2 = expect_spec(s, e1, 58)->Ok_0;
    let tv = value_spec(s, e2, d).0;
    let e3 = value_spec(s, e2, d).1->Ok_0;
    let q = ws_end(s, e3);
    let t1 = seq![NodeV::Key(k)] + tv;
    let n = members_spec(s, p, d).0;
    if byte_is(s, q, 44) && q + 1 > p {
        let t2 = members_spec(s, q + 1, d).0;
        assert(n == t1 + t2);
        lemma_holds_split(t, i, t1, t2);
        lemma_holds_split(t, i, seq![NodeV::Key(k)], tv);
        lemma_value_nodes(s, e2, d, t, i + 1);
        assert(t[i] == NodeV::Key(k)) by {
            assert(t.subrange(i, i + 1)[0] == t[i]);
        }
        lemma_members_nodes(s, q + 1, d, t, i + t1.len());
    } else {
        assert(byte_is(s, q, 125));
        assert(n == t1 + seq![NodeV::EndObject]);
        lemma_holds_split(t, i, t1, seq![NodeV::EndObject]);
        lemma_holds_split(t, i, seq![NodeV::Key(k)], tv);
        lemma_value_nodes(s, e2, d, t, i + 1);
        assert(t[i] == NodeV::Key(k)) by {
            assert(t.subrange(i, i + 1)[0] == t[i]);
        }
        assert(t[i + t1.len()] == NodeV::EndObject) by {
            assert(t.subrange(i + t1.len(), i + t1.len() + 1)[0] == t[i + t1.len()]);
        }
    }
}

/// A document that parses gives the nodes of exactly one whole value:
/// arrays and objects are closed, every member has a key and a value, and
/// nothing follows.
pub proof fn lemma_parse_gives_one_value(s: Seq<u8>)
    requires
        parse_spec(s).1 is Ok,
    ensures
        value_end(parse_spec(s).0, 0) == Some(parse_spec(s).0.len() as int),
{
    let t = parse_spec(s).0;
    assert(t.subrange(0, t.len() as int) =~= t);
    lemma_value_nodes(s, 0, 0, t, 0);
}

} // verus!
