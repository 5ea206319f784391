//! Helpers of the agent tool layer: the write-path sandbox and Base64.

use crate::text::{chars_of, push_char};
use vstd::prelude::*;

verus! {

/// Unicode `White_Space` (what `char::is_whitespace` tests).
pub open spec fn is_white_space(c: char) -> bool {
    ||| ('\u{9}' <= c && c <= '\u{d}')
    ||| c == ' '
    ||| c == '\u{85}'
    ||| c == '\u{a0}'
    ||| c == '\u{1680}'
    ||| ('\u{2000}' <= c && c <= '\u{200a}')
    ||| c == '\u{2028}'
    ||| c == '\u{2029}'
    ||| c == '\u{202f}'
    ||| c == '\u{205f}'
    ||| c == '\u{3000}'
}

/// `s` is empty once surrounding whitespace is trimmed.
pub open spec fn blank(s: Seq<char>) -> bool {
    forall|i: int| 0 <= i < s.len() ==> is_white_space(#[trigger] s[i])
}

/// A ".." component of `s` starts at `i`.
pub open spec fn parent_at(s: Seq<char>, i: int) -> bool {
    0 <= i && i + 1 < s.len() && (i == 0 || s[i - 1] == '/') && s[i] == '.' && s[i + 1] == '.' && (
    i + 2 == s.len() || s[i + 2] == '/')
}

/// A "/"-separated component of `s` equals "..".
pub open spec fn has_parent_component(s: Seq<char>) -> bool {
    exists|i: int| #[trigger] parent_at(s, i)
}

/// Where an output path may be written: the project directory and below.
pub open spec fn sandbox_spec(s: Seq<char>) -> Result<Seq<char>, Seq<char>> {
    if blank(s) {
        Err("empty output path"@)
    } else if s.len() > 0 && s[0] == '/' {
        Err("absolute paths are not permitted (project-dir only): "@ + s)
    } else if has_parent_component(s) {
        Err("path traversal (\"..\") is not permitted: "@ + s)
    } else {
        Ok(s)
    }
}

/// A path the sandbox accepts is exactly the requested text, is not blank,
/// is not absolute, and has no ".." component: writes stay inside the
/// project directory.
pub proof fn lemma_sandbox_accepts_only_project_paths(s: Seq<char>)
    ensures
        sandbox_spec(s) is Ok ==> {
            &&& sandbox_spec(s)->Ok_0 == s
            &&& !blank(s)
            &&& !(s.len() > 0 && s[0] == '/')
            &&& forall|i: int| !#[trigger] parent_at(s, i)
        },
{
}

fn is_white_space_exec(c: char) -> (r: bool)
    ensures
        r == is_white_space(c),
{
    ('\u{9}' <= c && c <= '\u{d}') || c == ' ' || c == '\u{85}' || c == '\u{a0}' || c == '\u{1680}'
        || ('\u{2000}' <= c && c <= '\u{200a}') || c == '\u{2028}' || c == '\u{2029}' || c
        == '\u{202f}' || c == '\u{205f}' || c == '\u{3000}'
}

/// Checks a requested output path (Unix path rules): rejects a blank path,
/// an absolute path, and any ".." component; otherwise returns it unchanged.
pub fn sandbox_write_path(requested: &str) -> (r: Result<String, String>)
    ensures
        match sandbox_spec(requested@) {
            Ok(p) => r matches Ok(q) && q@ == p,
            Err(m) => r matches Err(e) && e@ == m,
        },
{
    let cs = chars_of(requested);
    let n = cs.len();
    let mut all_white = true;
    let mut i: usize = 0;
    while i < n
        invariant
            n == cs@.len(),
            cs@ == requested@,
            i <= n,
            all_white == (forall|j: int| 0 <= j < i ==> is_white_space(#[trigger] cs@[j])),
        decreases n - i,
    {
        if !is_white_space_exec(cs[i]) {
            all_white = false;
        }
        i += 1;
    }
    if all_white {
        proof {
            assert(blank(requested@));
        }
        return Err(String::from_str("empty output path"));
    }
    proof {
        assert(!blank(requested@));
    }
    if n > 0 && cs[0] == '/' {
        let mut m = String::from_str("absolute paths are not permitted (project-dir only): ");
        m.append(requested);
        return Err(m);
    }
    let mut i: usize = 0;
    while n >= 2 && i < n - 1
        invariant
            n == cs@.len(),
            cs@ == requested@,
            !blank(requested@),
            !(requested@.len() > 0 && requested@[0] == '/'),
            forall|j: int| 0 <= j < i ==> !#[trigger] parent_at(requested@, j),
        decreases n - i,
    {
        let here = (i == 0 || cs[i - 1] == '/') && cs[i] == '.' && cs[i + 1] == '.' && (i + 2 == n
            || cs[i + 2] == '/');
        proof {
            assert(here == parent_at(requested@, i as int));
        }
        if here {
            let mut m = String::from_str("path traversal (\"..\") is not permitted: ");
            m.append(requested);
            proof {
                assert(has_parent_component(requested@)) by {
                    assert(parent_at(requested@, i as int));
                }
            }
            return Err(m);
        }
        i += 1;
    }
    proof {
        assert forall|j: int| !#[trigger] parent_at(requested@, j) by {
            if 0 <= j < i {
            } else {
                assert(!parent_at(requested@, j));
            }
        }
        assert(!has_parent_component(requested@));
    }
    Ok(String::from_str(requested))
}

/// The Base64 alphabet of RFC 4648.
pub open spec fn b64_char(i: int) -> char {
    if i < 26 {
        (65 + i) as char
    } else if i < 52 {
        (97 + i - 26) as char
    } else if i < 62 {
        (48 + i - 52) as char
    } else if i == 62 {
        '+'
    } else {
        '/'
    }
}

/// The four characters of one group of one to three bytes.
pub open spec fn b64_group(g: Seq<u8>) -> Seq<char> {
    let b0 = g[0] as int;
    let b1 = if g.len() > 1 {
        g[1] as int
    } else {
        0
    };
    let b2 = if g.len() > 2 {
        g[2] as int
    } else {
        0
    };
    let n = b0 * 65536 + b1 * 256 + b2;
    seq![
        b64_char((n / 262144) % 64),
        b64_char((n / 4096) % 64),
        if g.len() > 1 {
            b64_char((n / 64) % 64)
        } else {
            '='
        },
        if g.len() > 2 {
            b64_char(n % 64)
        } else {
            '='
        },
    ]
}

/// Base64 (RFC 4648, padded) of `data`.
pub open spec fn b64_spec(data: Seq<u8>) -> Seq<char>
    decreases data.len(),
{
    if data.len() == 0 {
        Seq::empty()
    } else if data.len() <= 3 {
        b64_group(data)
    } else {
        b64_group(data.take(3)) + b64_spec(data.skip(3))
    }
}

proof fn lemma_b64_step(data: Seq<u8>, i: int)
    requires
        0 <= i < data.len(),
    ensures
        ({
            let rest = data.skip(i);
            let g = if rest.len() <= 3 {
                rest
            } else {
                rest.take(3)
            };
            let next = if rest.len() <= 3 {
                data.len() as int
            } else {
                i + 3
            };
            b64_spec(rest) == b64_group(g) + b64_spec(data.skip(next))
        }),
{
    let rest = data.skip(i);
    if rest.len() <= 3 {
        assert(data.skip(data.len() as int) =~= Seq::<u8>::empty());
        assert(b64_group(rest) + Seq::<char>::empty() =~= b64_group(rest));
    } else {
        assert(rest.skip(3) =~= data.skip(i + 3));
    }
}

fn b64_char_exec(i: u32) -> (c: char)
    requires
        i < 64,
    ensures
        c == b64_char(i as int),
{
    if i < 26 {
        ((65 + i) as u8) as char
    } else if i < 52 {
        ((97 + i - 26) as u8) as char
    } else if i < 62 {
        ((48 + i - 52) as u8) as char
    } else if i == 62 {
        '+'
    } else {
        '/'
    }
}

/// The group of bytes `b0, b1, b2` cut to `rem` (at most three) bytes.
pub open spec fn group_of(b0: u8, b1: u8, b2: u8, rem: int) -> Seq<u8> {
    if rem >= 3 {
        seq![b0, b1, b2]
    } else if rem == 2 {
        seq![b0, b1]
    } else {
        seq![b0]
    }
}

fn group_chars(b0: u8, b1: u8, b2: u8, rem: usize) -> (r: (char, char, char, char))
    requires
        rem >= 1,
        rem < 2 ==> b1 == 0,
        rem < 3 ==> b2 == 0,
    ensures
        seq![r.0, r.1, r.2, r.3] == b64_group(group_of(b0, b1, b2, rem as int)),
{
    let n = ((b0 as u32) << 16) | ((b1 as u32) << 8) | (b2 as u32);
    proof {
        assert(((b0 as u32) << 16) | ((b1 as u32) << 8) | (b2 as u32) == (b0 as u32) * 65536 + (
        b1 as u32) * 256 + (b2 as u32)) by (bit_vector);
        assert((n >> 18) & 0x3F == (n / 262144) % 64) by (bit_vector);
        assert((n >> 12) & 0x3F == (n / 4096) % 64) by (bit_vector);
        assert((n >> 6) & 0x3F == (n / 64) % 64) by (bit_vector);
        assert(n & 0x3F == n % 64) by (bit_vector);
    }
    let c0 = b64_char_exec((n >> 18) & 0x3F);
    let c1 = b64_char_exec((n >> 12) & 0x3F);
    let c2 = if rem > 1 {
        b64_char_exec((n >> 6) & 0x3F)
    } else {
        '='
    };
    let c3 = if rem > 2 {
        b64_char_exec(n & 0x3F)
    } else {
        '='
    };
    proof {
        let g = group_of(b0, b1, b2, rem as int);
        assert(g[0] == b0);
        assert(seq![c0, c1, c2, c3] =~= b64_group(g));
    }
    (c0, c1, c2, c3)
}

/// Base64 of `data` with the standard alphabet and '=' padding.
pub fn base64_encode(data: &[u8]) -> (s: String)
    ensures
        s@ == b64_spec(data@),
{
    let mut out = String::new();
    let mut i: usize = 0;
    proof {
        assert(data@.skip(0) =~= data@);
        assert(out@ + b64_spec(data@) =~= b64_spec(data@));
    }
    while i < data.len()
        invariant
            i <= data.len(),
            out@ + b64_spec(data@.skip(i as int)) == b64_spec(data@),
        decreases data.len() - i,
    {
        let rem = data.len() - i;
        let b0 = data[i];
        let b1 = if rem > 1 {
            data[i + 1]
        } else {
            0
        };
        let b2 = if rem > 2 {
            data[i + 2]
        } else {
            0
        };
        let (c0, c1, c2, c3) = group_chars(b0, b1, b2, rem);
        let ghost before = out@;
        push_char(&mut out, c0);
        push_char(&mut out, c1);
        push_char(&mut out, c2);
        push_char(&mut out, c3);
        proof {
            lemma_b64_step(data@, i as int);
            let rest = data@.skip(i as int);
            let g = if rest.len() <= 3 {
                rest
            } else {
                rest.take(3)
            };
            assert(g =~= group_of(b0, b1, b2, rem as int));
            assert(out@ =~= before + seq![c0, c1, c2, c3]);
        }
        i = if rem > 3 {
            i + 3
        } else {
            data.len()
        };
    }
    proof {
        assert(data@.skip(i as int) =~= Seq::<u8>::empty());
        assert(out@ + Seq::<char>::empty() =~= out@);
    }
    out
}

/// Base64 output is four characters per started group of three bytes, and
/// padding appears only in the last two positions.
pub proof fn lemma_b64_shape(data: Seq<u8>)
    ensures
        b64_spec(data).len() == 4 * ((data.len() + 2) / 3),
        forall|i: int| 0 <= i < b64_spec(data).len() - 2 ==> #[trigger] b64_spec(data)[i] != '=',
    decreases data.len(),
{
    if data.len() == 0 {
    } else if data.len() <= 3 {
        assert(b64_spec(data) == b64_group(data));
        lemma_b64_char_not_pad(data);
    } else {
        lemma_b64_shape(data.skip(3));
        lemma_b64_char_not_pad(data.take(3));
        let g = b64_group(data.take(3));
        let r = b64_spec(data.skip(3));
        assert(b64_spec(data) == g + r);
        assert forall|i: int| 0 <= i < b64_spec(data).len() - 2 implies #[trigger] b64_spec(data)[i]
            != '=' by {
            if i >= 4 {
                assert(b64_spec(data)[i] == r[i - 4]);
            }
        }
    }
}

proof fn lemma_b64_char_not_pad(g: Seq<u8>)
    requires
        1 <= g.len() <= 3,
    ensures
        b64_group(g).len() == 4,
        b64_group(g)[0] != '=',
        b64_group(g)[1] != '=',
        g.len() == 3 ==> b64_group(g)[2] != '=' && b64_group(g)[3] != '=',
{
    let b0 = g[0] as int;
    let b1 = if g.len() > 1 { g[1] as int } else { 0 };
    let b2 = if g.len() > 2 { g[2] as int } else { 0 };
    let n = b0 * 65536 + b1 * 256 + b2;
    lemma_b64_char_range((n / 262144) % 64);
    lemma_b64_char_range((n / 4096) % 64);
    lemma_b64_char_range((n / 64) % 64);
    lemma_b64_char_range(n % 64);
}

/// Alphabet characters are never the padding character.
proof fn lemma_b64_char_range(i: int)
    requires
        0 <= i < 64,
    ensures
        b64_char(i) != '=',
{
}

} // verus!
