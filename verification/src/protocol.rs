//! The decisions of the agent protocol server: Content-Length framing of the
//! message headers and the routing of JSON-RPC methods.

use crate::text::{chars_of, str_eq};
use crate::tools::is_white_space;
use vstd::prelude::*;

verus! {

/// The value of a run of ASCII decimal digits, if every character is one.
pub open spec fn dec_digits(t: Seq<char>) -> Option<int>
    decreases t.len(),
{
    if t.len() == 0 {
        Some(0)
    } else {
        match dec_digits(t.drop_last()) {
            Some(v) => if '0' <= t.last() && t.last() <= '9' {
                Some(v * 10 + (t.last() as int - 48))
            } else {
                None
            },
            None => None,
        }
    }
}

/// `t` read as a `usize` the way `str::parse::<usize>` reads it: an optional
/// leading `+`, then one or more decimal digits and nothing else, with a value
/// that fits.
pub open spec fn usize_value(t: Seq<char>) -> Option<int> {
    let d = if t.len() > 0 && t[0] == '+' {
        t.drop_first()
    } else {
        t
    };
    if d.len() == 0 {
        None
    } else {
        match dec_digits(d) {
            Some(v) => if v <= usize::MAX {
                Some(v)
            } else {
                None
            },
            None => None,
        }
    }
}

/// The decimal numeral of `v`: its digits, most significant first, with no
/// leading zeros.
pub open spec fn decimal(v: nat) -> Seq<char>
    decreases v,
{
    if v < 10 {
        seq![(v + 48) as char]
    } else {
        decimal(v / 10).push((v % 10 + 48) as char)
    }
}

proof fn lemma_decimal_digits(v: nat)
    ensures
        decimal(v).len() > 0,
        '0' <= decimal(v)[0] <= '9',
        dec_digits(decimal(v)) == Some(v as int),
    decreases v,
{
    let c = ((v % 10) + 48) as char;
    assert(c as int == v % 10 + 48);
    if v < 10 {
        assert(decimal(v).drop_last() =~= Seq::<char>::empty());
        assert(dec_digits(Seq::<char>::empty()) == Some(0int));
    } else {
        lemma_decimal_digits(v / 10);
        let d = decimal(v / 10);
        assert(decimal(v).drop_last() =~= d);
        assert(decimal(v).last() == c);
        assert(decimal(v)[0] == d[0]);
        assert((v / 10) * 10 + (v % 10) == v);
    }
}

/// Every number a `usize` holds reads back from its decimal numeral, also
/// behind a leading '+': every digit 0-9 counts with its decimal value.
pub proof fn lemma_usize_value_reads_decimal(v: nat)
    requires
        v <= usize::MAX,
    ensures
        usize_value(decimal(v)) == Some(v as int),
        usize_value(seq!['+'] + decimal(v)) == Some(v as int),
{
    lemma_decimal_digits(v);
    assert((seq!['+'] + decimal(v)).drop_first() =~= decimal(v));
}

/// The first index at or after `i` that holds no whitespace (or the end).
pub open spec fn trim_start_at(t: Seq<char>, i: int) -> int
    decreases t.len() - i,
{
    if 0 <= i < t.len() && is_white_space(t[i]) {
        trim_start_at(t, i + 1)
    } else {
        i
    }
}

/// The end of `t[..j]` once trailing characters that `drop(c)` holds for
/// are removed.
pub open spec fn trim_end_at(t: Seq<char>, j: int, newline_only: bool) -> int
    decreases j,
{
    if j > 0 && j <= t.len() && (if newline_only {
        t[j - 1] == '\r' || t[j - 1] == '\n'
    } else {
        is_white_space(t[j - 1])
    }) {
        trim_end_at(t, j - 1, newline_only)
    } else {
        j
    }
}

/// `t` without leading and trailing whitespace (`str::trim`).
pub open spec fn trim(t: Seq<char>) -> Seq<char> {
    let a = trim_start_at(t, 0);
    let b = trim_end_at(t, t.len() as int, false);
    if a < b {
        t.subrange(a, b)
    } else {
        Seq::empty()
    }
}

/// `t` without its trailing carriage returns and line feeds.
pub open spec fn chomp(t: Seq<char>) -> Seq<char> {
    t.subrange(0, trim_end_at(t, t.len() as int, true))
}

/// What one header line does to the framing state.
#[derive(Clone, Copy, Debug, PartialEq, Eq, Structural)]
pub enum HeaderStep {
    /// The blank line that ends the headers.
    Done,
    /// More headers follow; the Content-Length known so far.
    More(Option<usize>),
}

/// The framing state after the header line `line`, given the Content-Length
/// known before it.
pub open spec fn header_spec(line: Seq<char>, known: Option<usize>) -> HeaderStep {
    let l = chomp(line);
    let prefix = "Content-Length:"@;
    if l.len() == 0 {
        HeaderStep::Done
    } else if l.len() >= prefix.len() && l.subrange(0, prefix.len() as int) == prefix {
        HeaderStep::More(
            match usize_value(trim(l.subrange(prefix.len() as int, l.len() as int))) {
                Some(v) => Some(v as usize),
                None => None,
            },
        )
    } else {
        HeaderStep::More(known)
    }
}

proof fn lemma_trim_end_bounds(t: Seq<char>, j: int, newline_only: bool)
    requires
        0 <= j <= t.len(),
    ensures
        0 <= trim_end_at(t, j, newline_only) <= j,
    decreases j,
{
    if j > 0 && (if newline_only {
        t[j - 1] == '\r' || t[j - 1] == '\n'
    } else {
        is_white_space(t[j - 1])
    }) {
        lemma_trim_end_bounds(t, j - 1, newline_only);
    }
}

proof fn lemma_trim_start_bounds(t: Seq<char>, i: int)
    requires
        0 <= i <= t.len(),
    ensures
        i <= trim_start_at(t, i) <= t.len(),
    decreases t.len() - i,
{
    if i < t.len() && is_white_space(t[i]) {
        lemma_trim_start_bounds(t, i + 1);
    }
}

fn white_space(c: char) -> (r: bool)
    ensures
        r == is_white_space(c),
{
    ('\u{9}' <= c && c <= '\u{d}') || c == ' ' || c == '\u{85}' || c == '\u{a0}' || c == '\u{1680}'
        || ('\u{2000}' <= c && c <= '\u{200a}') || c == '\u{2028}' || c == '\u{2029}' || c
        == '\u{202f}' || c == '\u{205f}' || c == '\u{3000}'
}

/// Reads `cs[a..b]` as `str::parse::<usize>` does.
fn parse_usize(cs: &Vec<char>, a: usize, b: usize) -> (r: Option<usize>)
    requires
        a <= b <= cs@.len(),
    ensures
        r == (match usize_value(cs@.subrange(a as int, b as int)) {
            Some(v) => Some(v as usize),
            None => None,
        }),
{
    let ghost t = cs@.subrange(a as int, b as int);
    let start: usize = if a < b && cs[a] == '+' {
        a + 1
    } else {
        a
    };
    let ghost d = cs@.subrange(start as int, b as int);
    proof {
        if a < b && cs@[a as int] == '+' {
            assert(t.drop_first() =~= d);
        } else {
            assert(t =~= d);
        }
    }
    if start == b {
        return None;
    }
    let mut acc: usize = 0;
    let mut i: usize = start;
    proof {
        assert(cs@.subrange(start as int, start as int) =~= Seq::<char>::empty());
    }
    while i < b
        invariant
            a <= start <= i <= b,
            start < b,
            b <= cs@.len(),
            d == cs@.subrange(start as int, b as int),
            t == cs@.subrange(a as int, b as int),
            d == (if t.len() > 0 && t[0] == '+' {
                t.drop_first()
            } else {
                t
            }),
            dec_digits(cs@.subrange(start as int, i as int)) == Some(acc as int),
        decreases b - i,
    {
        let c = cs[i];
        proof {
            assert(cs@.subrange(start as int, i + 1).drop_last() =~= cs@.subrange(
                start as int,
                i as int,
            ));
            assert(cs@.subrange(start as int, i + 1).last() == c);
        }
        if !('0' <= c && c <= '9') {
            proof {
                assert(d[i - start] == c);
                lemma_dec_digits_none(d, i - start);
            }
            return None;
        }
        let dv: usize = ((c as u32) - 48) as usize;
        proof {
            assert(dec_digits(cs@.subrange(start as int, i + 1)) == Some(acc * 10 + dv));
            assert(d.subrange(0, i - start + 1) =~= cs@.subrange(start as int, i + 1));
        }
        match acc.checked_mul(10) {
            Some(m) => match m.checked_add(dv) {
                Some(n) => {
                    acc = n;
                },
                None => {
                    proof {
                        lemma_dec_digits_grows(d, i - start + 1);
                    }
                    return None;
                },
            },
            None => {
                proof {
                    lemma_dec_digits_grows(d, i - start + 1);
                }
                return None;
            },
        }
        i += 1;
    }
    Some(acc)
}

proof fn lemma_dec_digits_none(t: Seq<char>, k: int)
    requires
        0 <= k < t.len(),
        !('0' <= t[k] && t[k] <= '9'),
    ensures
        dec_digits(t) is None,
    decreases t.len(),
{
    if k < t.len() - 1 {
        lemma_dec_digits_none(t.drop_last(), k);
    }
}

/// A prefix whose value already exceeds `usize::MAX`, or a non-digit, makes
/// the whole text unreadable.
proof fn lemma_dec_digits_grows(t: Seq<char>, k: int)
    requires
        0 < k <= t.len(),
        match dec_digits(t.subrange(0, k)) {
            Some(v) => v > usize::MAX,
            None => true,
        },
    ensures
        match dec_digits(t) {
            Some(v) => v > usize::MAX,
            None => true,
        },
    decreases t.len() - k,
{
    if k < t.len() {
        let p = t.subrange(0, k + 1);
        assert(p.drop_last() =~= t.subrange(0, k));
        match dec_digits(t.subrange(0, k)) {
            Some(v) => {
                match dec_digits(p) {
                    Some(w) => {
                        assert(w >= v * 10);
                    },
                    None => {},
                }
            },
            None => {},
        }
        lemma_dec_digits_grows(t, k + 1);
    } else {
        assert(t.subrange(0, k) =~= t);
    }
}

/// The framing state after one header line: `Done` at the blank line (line
/// breaks at its end removed) that ends the headers; a `Content-Length:` line
/// sets the length to its trimmed value read as a `usize`, or to none when
/// that does not read; any other line keeps what was known.
pub fn header_step(line: &str, known: Option<usize>) -> (r: HeaderStep)
    ensures
        r == header_spec(line@, known),
{
    let cs = chars_of(line);
    let n = cs.len();
    let mut end: usize = n;
    while end > 0 && (cs[end - 1] == '\r' || cs[end - 1] == '\n')
        invariant
            end <= n,
            n == cs@.len(),
            cs@ == line@,
            trim_end_at(cs@, end as int, true) == trim_end_at(cs@, n as int, true),
        decreases end,
    {
        end -= 1;
    }
    let ghost l = chomp(line@);
    proof {
        assert(l =~= cs@.subrange(0, end as int));
    }
    if end == 0 {
        return HeaderStep::Done;
    }
    let prefix = chars_of("Content-Length:");
    let k = prefix.len();
    let mut matches = end >= k;
    if matches {
        let mut i: usize = 0;
        while i < k
            invariant
                k == prefix@.len(),
                k <= end <= cs@.len(),
                i <= k,
                matches == (forall|j: int| 0 <= j < i ==> cs@[j] == prefix@[j]),
            decreases k - i,
        {
            if cs[i] != prefix[i] {
                matches = false;
            }
            i += 1;
        }
        proof {
            if matches {
                assert(l.subrange(0, k as int) =~= prefix@);
            } else {
                let j = choose|j: int| 0 <= j < k && cs@[j] != prefix@[j];
                assert(l.subrange(0, k as int)[j] != prefix@[j]);
            }
        }
    }
    if !matches {
        return HeaderStep::More(known);
    }
    let mut a: usize = k;
    while a < end && white_space(cs[a])
        invariant
            k <= a <= end,
            end <= cs@.len(),
            trim_start_at(l.subrange(k as int, l.len() as int), a - k) == trim_start_at(
                l.subrange(k as int, l.len() as int),
                0,
            ),
            l == cs@.subrange(0, end as int),
        decreases end - a,
    {
        a += 1;
    }
    let mut b: usize = end;
    while b > a && white_space(cs[b - 1])
        invariant
            k <= a <= b <= end,
            end <= cs@.len(),
            trim_end_at(l.subrange(k as int, l.len() as int), b - k, false) == trim_end_at(
                l.subrange(k as int, l.len() as int),
                l.len() - k,
                false,
            ),
            l == cs@.subrange(0, end as int),
        decreases b,
    {
        b -= 1;
    }
    let ghost rest = l.subrange(k as int, l.len() as int);
    proof {
        assert(trim_start_at(rest, 0) == a - k);
        if b > a {
            assert(!is_white_space(rest[b - k - 1]));
            assert(trim_end_at(rest, rest.len() as int, false) == b - k);
            assert(trim(rest) =~= cs@.subrange(a as int, b as int));
        } else {
            lemma_trim_end_bounds(rest, (a - k) as int, false);
            assert(trim(rest) =~= cs@.subrange(a as int, b as int));
        }
    }
    HeaderStep::More(parse_usize(&cs, a, b))
}

/// What the server does with a JSON-RPC message.
#[derive(Clone, Copy, Debug, PartialEq, Eq, Structural)]
pub enum Route {
    /// Answer with the server's protocol version, name and capabilities.
    Initialize,
    /// Answer with the tool list.
    ToolsList,
    /// Run a tool and answer with its result.
    ToolsCall,
    /// Answer with an empty object.
    Ping,
    /// Send nothing back (a notification).
    NoReply,
    /// Answer with the JSON-RPC error "Method not found".
    MethodNotFound,
}

/// The route of a message with method `method`; `has_id` tells a request
/// (which is owed an answer) from a notification.
pub open spec fn route_spec(method: Seq<char>, has_id: bool) -> Route {
    if method == "initialize"@ {
        Route::Initialize
    } else if method == "initialized"@ {
        Route::NoReply
    } else if method == "tools/list"@ {
        Route::ToolsList
    } else if method == "tools/call"@ {
        Route::ToolsCall
    } else if method == "ping"@ {
        Route::Ping
    } else if has_id {
        Route::MethodNotFound
    } else {
        Route::NoReply
    }
}

/// Routes a JSON-RPC message by its method name: the known methods to their
/// handlers, the `initialized` notification to no answer, and an unknown
/// method to "Method not found" for a request and to no answer for a
/// notification.
pub fn route(method: &str, has_id: bool) -> (r: Route)
    ensures
        r == route_spec(method@, has_id),
{
    if str_eq(method, "initialize") {
        Route::Initialize
    } else if str_eq(method, "initialized") {
        Route::NoReply
    } else if str_eq(method, "tools/list") {
        Route::ToolsList
    } else if str_eq(method, "tools/call") {
        Route::ToolsCall
    } else if str_eq(method, "ping") {
        Route::Ping
    } else if has_id {
        Route::MethodNotFound
    } else {
        Route::NoReply
    }
}

} // verus!
