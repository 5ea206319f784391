//! Output file formats, chosen from the path's extension.

use crate::text::{ascii_lower, chars_of, str_eq};
use vstd::prelude::*;
use vstd::utf8::is_ascii_chars;

verus! {

/// An output file format.
#[derive(Clone, Copy, Debug, PartialEq, Eq, Structural)]
pub enum ExportFormat {
    /// Binary STL (the default).
    Stl,
    /// glTF 2.0 binary.
    Glb,
    /// 3MF (OPC/ZIP with units).
    ThreeMf,
    /// Self-contained HTML viewer.
    Html,
}

/// The extension table, in the order the formats are listed.
pub open spec fn ext_table() -> Seq<(Seq<char>, ExportFormat)> {
    seq![
        ("stl"@, ExportFormat::Stl),
        ("glb"@, ExportFormat::Glb),
        ("3mf"@, ExportFormat::ThreeMf),
        ("html"@, ExportFormat::Html),
        ("htm"@, ExportFormat::Html),
    ]
}

/// The first `k` table entries as ".ext" joined by ", ".
pub open spec fn supported_prefix(k: int) -> Seq<char>
    decreases k,
{
    if k <= 0 {
        Seq::empty()
    } else {
        supported_prefix(k - 1) + (if k > 1 {
            ", "@
        } else {
            Seq::empty()
        }) + "."@ + ext_table()[k - 1].0
    }
}

/// The list of accepted extensions.
pub open spec fn supported_spec() -> Seq<char> {
    supported_prefix(5)
}

/// The format of the first table entry among the first `k` whose extension is `e`.
pub open spec fn lookup_from(e: Seq<char>, k: int) -> Option<ExportFormat>
    decreases k,
{
    if k <= 0 {
        None
    } else {
        match lookup_from(e, k - 1) {
            Some(f) => Some(f),
            None => if ext_table()[k - 1].0 == e {
                Some(ext_table()[k - 1].1)
            } else {
                None
            },
        }
    }
}

proof fn lemma_lookup_from_found(e: Seq<char>, k: int, k2: int)
    requires
        lookup_from(e, k) is Some,
        k <= k2,
    ensures
        lookup_from(e, k2) == lookup_from(e, k),
    decreases k2 - k,
{
    if k2 > k {
        lemma_lookup_from_found(e, k, k2 - 1);
    }
}

/// The format registered for extension `e`.
pub open spec fn lookup(e: Seq<char>) -> Option<ExportFormat> {
    lookup_from(e, 5)
}

/// The last index in `[lo, hi)` holding `c`, or `lo - 1`.
pub open spec fn last_in(p: Seq<char>, c: char, lo: int, hi: int) -> int
    decreases hi - lo,
{
    if hi <= lo {
        lo - 1
    } else if p[hi - 1] == c {
        hi - 1
    } else {
        last_in(p, c, lo, hi - 1)
    }
}

proof fn lemma_last_in_bounds(p: Seq<char>, c: char, lo: int, hi: int)
    ensures
        hi > lo ==> lo - 1 <= last_in(p, c, lo, hi) < hi,
        hi <= lo ==> last_in(p, c, lo, hi) == lo - 1,
    decreases hi - lo,
{
    if hi > lo && p[hi - 1] != c {
        lemma_last_in_bounds(p, c, lo, hi - 1);
    }
}

/// Bounds of the last path component in `p[..end]` that is neither empty nor
/// ".", splitting at '/'.
pub open spec fn name_bounds(p: Seq<char>, end: int) -> Option<(int, int)>
    decreases end,
{
    let j = last_in(p, '/', 0, end);
    let seg = p.subrange(j + 1, end);
    if end <= 0 {
        None
    } else if seg.len() == 0 || seg == seq!['.'] {
        if 0 <= j < end {
            name_bounds(p, j)
        } else {
            None
        }
    } else {
        Some((j + 1, end))
    }
}

/// The extension of a path: the text after the last '.' of its file name,
/// where the file name is the last component and is not "..", and the dot
/// is not its first character.
pub open spec fn path_extension(p: Seq<char>) -> Option<Seq<char>> {
    match name_bounds(p, p.len() as int) {
        None => None,
        Some((a, b)) => if p.subrange(a, b) == seq!['.', '.'] {
            None
        } else {
            let k = last_in(p, '.', a, b);
            if k <= a {
                None
            } else {
                Some(p.subrange(k + 1, b))
            }
        },
    }
}

/// What `str::to_lowercase` returns for `s`.
pub uninterp spec fn lowercase_name(s: Seq<char>) -> Seq<char>;

/// `str::to_lowercase`. Claimed: the result is a function of the input, and
/// for ASCII input it lowers exactly the letters A-Z. How other characters
/// are lowered (Unicode case mapping) is left unstated.
#[verifier::external_body]
fn to_lowercase(s: &str) -> (r: String)
    ensures
        r@ == lowercase_name(s@),
        is_ascii_chars(s@) ==> r@ == ascii_lower(s@),
{
    s.to_lowercase()
}

/// The error text for an unsupported (lowercased) extension `e` of `path`.
pub open spec fn unsupported_message(e: Seq<char>, path: Seq<char>) -> Seq<char> {
    "unsupported output format '."@ + e + "' in '"@ + path + "'; supported: "@ + supported_spec()
        + ". Writing STL bytes under a '."@ + e
        + "' name would make the file misrepresent its own contents."@
}

/// One past the last index in `[lo, hi)` holding `c`, or `lo` when none does.
fn last_in_exec(p: &Vec<char>, c: char, lo: usize, hi: usize) -> (k1: usize)
    requires
        lo <= hi <= p@.len(),
    ensures
        k1 == last_in(p@, c, lo as int, hi as int) + 1,
        lo <= k1 <= hi,
{
    proof {
        lemma_last_in_bounds(p@, c, lo as int, hi as int);
    }
    let mut h = hi;
    while h > lo
        invariant
            lo <= h <= hi,
            hi <= p@.len(),
            last_in(p@, c, lo as int, h as int) == last_in(p@, c, lo as int, hi as int),
        decreases h - lo,
    {
        if p[h - 1] == c {
            return h;
        }
        h -= 1;
    }
    lo
}

impl ExportFormat {
    /// Row `i` of the extension table.
    fn by_extension(i: usize) -> (r: (&'static str, ExportFormat))
        requires
            i < 5,
        ensures
            r.0@ == ext_table()[i as int].0,
            r.1 == ext_table()[i as int].1,
    {
        match i {
            0 => ("stl", ExportFormat::Stl),
            1 => ("glb", ExportFormat::Glb),
            2 => ("3mf", ExportFormat::ThreeMf),
            3 => ("html", ExportFormat::Html),
            _ => ("htm", ExportFormat::Html),
        }
    }

    /// The accepted extensions, ".stl, .glb, .3mf, .html, .htm".
    pub fn supported_extensions() -> (s: String)
        ensures
            s@ == supported_spec(),
    {
        let mut s = String::new();
        let mut i: usize = 0;
        while i < 5
            invariant
                i <= 5,
                s@ == supported_prefix(i as int),
            decreases 5 - i,
        {
            if i > 0 {
                s.append(", ");
            }
            s.append(".");
            let (e, _) = Self::by_extension(i);
            s.append(e);
            i += 1;
            proof {
                assert(s@ =~= supported_prefix(i as int));
            }
        }
        s
    }

    /// The format for `path`, decided by its extension (case-insensitively).
    /// A path without an extension, or with an empty one, is STL; an
    /// extension outside the table is an error naming the path and the
    /// supported extensions. An ASCII extension is lowered letter by letter.
    pub fn from_path(path: &str) -> (r: Result<ExportFormat, String>)
        ensures
            match path_extension(path@) {
                None => r == Ok::<ExportFormat, String>(ExportFormat::Stl),
                Some(e) => {
                    let l = lowercase_name(e);
                    if l.len() == 0 {
                        r == Ok::<ExportFormat, String>(ExportFormat::Stl)
                    } else {
                        match lookup(l) {
                            Some(f) => r == Ok::<ExportFormat, String>(f),
                            None => r matches Err(m) && m@ == unsupported_message(l, path@),
                        }
                    }
                },
            },
            path_extension(path@) matches Some(e) ==> (is_ascii_chars(e) ==> lowercase_name(e)
                == ascii_lower(e)),
    {
        let cs = chars_of(path);
        let n = cs.len();
        // The last component that is neither empty nor ".".
        let mut end: usize = n;
        let mut bounds: Option<(usize, usize)> = None;
        let mut searching = true;
        while searching
            invariant
                cs@ == path@,
                n == cs@.len(),
                end <= n,
                searching ==> bounds is None,
                searching ==> name_bounds(path@, end as int) == name_bounds(path@, n as int),
                !searching ==> match bounds {
                    None => name_bounds(path@, n as int) is None,
                    Some((a, b)) => name_bounds(path@, n as int) == Some((a as int, b as int)) && a
                        <= b <= n,
                },
            decreases end + (if searching {
                1int
            } else {
                0
            }),
        {
            if end == 0 {
                searching = false;
            } else {
                let start = last_in_exec(&cs, '/', 0, end);
                let ghost j = start - 1;
                let seg_len = end - start;
                let is_dot = seg_len == 1 && cs[start] == '.';
                proof {
                    let seg = path@.subrange(j + 1, end as int);
                    if seg_len == 1 {
                        assert(seg[0] == cs@[start as int]);
                        if cs@[start as int] == '.' {
                            assert(seg =~= seq!['.']);
                        } else {
                            assert(seq!['.'][0] == '.');
                            assert(seg != seq!['.']);
                        }
                    } else {
                        assert(seg.len() != 1);
                        assert(seg != seq!['.']);
                    }
                    assert((seg.len() == 0 || seg == seq!['.']) == (seg_len == 0 || is_dot));
                }
                if seg_len == 0 || is_dot {
                    if start >= 1 {
                        end = start - 1;
                    } else {
                        searching = false;
                    }
                } else {
                    bounds = Some((start, end));
                    searching = false;
                }
            }
        }
        let ext: Option<(usize, usize)> = match bounds {
            None => None,
            Some((a, b)) => {
                let is_dotdot = b - a == 2 && cs[a] == '.' && cs[a + 1] == '.';
                proof {
                    let seg = path@.subrange(a as int, b as int);
                    if b - a == 2 {
                        assert(seg[0] == cs@[a as int] && seg[1] == cs@[a + 1]);
                        if cs@[a as int] == '.' && cs@[a + 1] == '.' {
                            assert(seg =~= seq!['.', '.']);
                        } else {
                            assert(seq!['.', '.'][0] == '.' && seq!['.', '.'][1] == '.');
                            assert(seg != seq!['.', '.']);
                        }
                    } else {
                        assert(seg.len() != 2);
                        assert(seg != seq!['.', '.']);
                    }
                }
                if is_dotdot {
                    None
                } else {
                    let k1 = last_in_exec(&cs, '.', a, b);
                    if k1 <= a || k1 - 1 <= a {
                        None
                    } else {
                        Some((k1, b))
                    }
                }
            },
        };
        proof {
            match ext {
                None => assert(path_extension(path@) is None),
                Some((f, t)) => {
                    assert(f <= t <= n);
                    assert(path_extension(path@) == Some(path@.subrange(f as int, t as int)));
                },
            }
        }
        match ext {
            None => Ok(ExportFormat::Stl),
            Some((from, to)) => {
                let e = path.substring_char(from, to);
                let lower = to_lowercase(e);
                if lower.as_str().is_empty() {
                    return Ok(ExportFormat::Stl);
                }
                let mut i: usize = 0;
                while i < 5
                    invariant
                        i <= 5,
                        lookup_from(lower@, i as int) is None,
                        path_extension(path@) == Some(e@),
                        lower@ == lowercase_name(e@),
                        is_ascii_chars(e@) ==> lower@ == ascii_lower(e@),
                        lower@.len() > 0,
                    decreases 5 - i,
                {
                    let (known, f) = Self::by_extension(i);
                    if str_eq(known, lower.as_str()) {
                        proof {
                            assert(lookup_from(lower@, i + 1) == Some(f));
                            lemma_lookup_from_found(lower@, i + 1, 5);
                        }
                        return Ok(f);
                    }
                    i += 1;
                }
                let mut m = String::new();
                m.append("unsupported output format '.");
                m.append(lower.as_str());
                m.append("' in '");
                m.append(path);
                m.append("'; supported: ");
                let sup = Self::supported_extensions();
                m.append(sup.as_str());
                m.append(". Writing STL bytes under a '.");
                m.append(lower.as_str());
                m.append("' name would make the file misrepresent its own contents.");
                proof {
                    assert(m@ =~= unsupported_message(lower@, path@));
                }
                Err(m)
            },
        }
    }

    /// Short label for responses and logs.
    pub fn label(self) -> (s: &'static str)
        ensures
            s@ == match self {
                ExportFormat::Stl => "STL"@,
                ExportFormat::Glb => "GLB"@,
                ExportFormat::ThreeMf => "3MF"@,
                ExportFormat::Html => "HTML"@,
            },
    {
        match self {
            ExportFormat::Stl => "STL",
            ExportFormat::Glb => "GLB",
            ExportFormat::ThreeMf => "3MF",
            ExportFormat::Html => "HTML",
        }
    }
}

} // verus!
