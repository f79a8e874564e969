//! Where the script of the web worker is found.

use vstd::prelude::*;
use vstd::string::*;

verus! {

/// `pattern` stands in `s` at position `p`.
pub open spec fn stands_at(s: Seq<char>, pattern: Seq<char>, p: int) -> bool {
    &&& 0 <= p
    &&& p + pattern.len() <= s.len()
    &&& s.subrange(p, p + pattern.len()) == pattern
}

/// The first position from `p` on where `pattern` stands in `s`.
pub open spec fn first_from(s: Seq<char>, pattern: Seq<char>, p: int) -> Option<int>
    decreases s.len() + 1 - p,
{
    if p + pattern.len() > s.len() {
        None
    } else if stands_at(s, pattern, p) {
        Some(p)
    } else {
        first_from(s, pattern, p + 1)
    }
}

/// What follows the last slash among the first `end` characters of `s`, up to
/// `end`.
pub open spec fn last_segment(s: Seq<char>, end: int) -> Seq<char>
    decreases end,
{
    if end <= 0 {
        Seq::empty()
    } else if s[end - 1] == '/' {
        Seq::empty()
    } else {
        last_segment(s, end - 1).push(s[end - 1])
    }
}

/// The name of the script that a stack trace mentions.
pub open spec fn mentioned_script(stack: Seq<char>) -> Option<Seq<char>> {
    match first_from(stack, "obamify-"@, 0) {
        None => None,
        Some(start) => {
            let rest = stack.skip(start);
            match first_from(rest, ".js"@, 0) {
                None => None,
                Some(end) => Some(rest.take(end + 3)),
            }
        },
    }
}

/// The script that a worker loads: the last part of the known address, else the
/// one that a stack trace mentions, else the plain name.
pub open spec fn script_path(address: Option<Seq<char>>, stack: Option<Seq<char>>) -> Seq<char> {
    match address {
        Some(a) => "./"@ + last_segment(a, a.len() as int),
        None => match stack {
            Some(s) => match mentioned_script(s) {
                Some(name) => "./"@ + name,
                None => "./obamify.js"@,
            },
            None => "./obamify.js"@,
        },
    }
}

fn matches_at(s: &str, pattern: &str, p: usize, n: usize, m: usize) -> (r: bool)
    requires
        n == s@.len(),
        m == pattern@.len(),
        p + m <= n,
    ensures
        r == stands_at(s@, pattern@, p as int),
{
    let mut k: usize = 0;
    while k < m
        invariant
            k <= m,
            n == s@.len(),
            m == pattern@.len(),
            p + m <= n,
            forall|j: int| 0 <= j < k ==> s@[p + j] == #[trigger] pattern@[j],
        decreases m - k,
    {
        if s.get_char(p + k) != pattern.get_char(k) {
            assert(s@.subrange(p as int, p + m)[k as int] != pattern@[k as int]);
            return false;
        }
        k += 1;
    }
    assert(s@.subrange(p as int, p + m) =~= pattern@);
    true
}

fn find(s: &str, pattern: &str) -> (r: Option<usize>)
    ensures
        match r {
            Some(p) => first_from(s@, pattern@, 0) == Some(p as int) && p + pattern@.len()
                <= s@.len(),
            None => first_from(s@, pattern@, 0) is None,
        },
{
    let n: usize = s.unicode_len();
    let m: usize = pattern.unicode_len();
    let mut p: usize = 0;
    while p <= n && m <= n - p
        invariant
            p <= n + 1,
            n == s@.len(),
            m == pattern@.len(),
            first_from(s@, pattern@, 0) == first_from(s@, pattern@, p as int),
        decreases n + 1 - p,
    {
        if matches_at(s, pattern, p, n, m) {
            return Some(p);
        }
        if p == n {
            assert(first_from(s@, pattern@, p + 1) is None);
            return None;
        }
        p += 1;
    }
    None
}

/// The path of the worker's script, from the address of the running script and a
/// stack trace, where there are such.
pub fn worker_script(address: Option<String>, stack: Option<String>) -> (r: String)
    ensures
        r@ == script_path(
            match address {
                Some(a) => Some(a@),
                None => None,
            },
            match stack {
                Some(s) => Some(s@),
                None => None,
            },
        ),
{
    match address {
        Some(a) => {
            let s: &str = a.as_str();
            let n: usize = s.unicode_len();
            let mut start: usize = n;
            let ghost chars = a@;
            assert(chars.subrange(n as int, n as int) =~= Seq::empty());
            assert(last_segment(chars, n as int) + chars.subrange(n as int, n as int)
                =~= last_segment(chars, n as int));
            while start > 0 && s.get_char(start - 1) != '/'
                invariant
                    start <= n,
                    n == s@.len(),
                    s@ == chars,
                    last_segment(chars, n as int) == last_segment(chars, start as int)
                        + chars.subrange(start as int, n as int),
                decreases start,
            {
                proof {
                    assert(last_segment(chars, start as int) + chars.subrange(
                        start as int,
                        n as int,
                    ) =~= last_segment(chars, start - 1) + chars.subrange(start - 1, n as int));
                }
                start -= 1;
            }
            let mut out = "./".to_string();
            out.append(s.substring_char(start, n));
            proof {
                assert(last_segment(chars, start as int) =~= Seq::empty());
                assert(out@ =~= "./"@ + last_segment(chars, n as int));
            }
            out
        },
        None => {
            if let Some(trace) = stack {
                let s: &str = trace.as_str();
                let n: usize = s.unicode_len();
                if let Some(start) = find(s, "obamify-") {
                    let rest: &str = s.substring_char(start, n);
                    assert(rest@ =~= s@.skip(start as int));
                    if let Some(end) = find(rest, ".js") {
                        proof {
                            reveal_strlit(".js");
                        }
                        let mut out = "./".to_string();
                        out.append(rest.substring_char(0, end + 3));
                        assert(rest@.subrange(0, end + 3) =~= rest@.take(end + 3));
                        return out;
                    }
                }
            }
            "./obamify.js".to_string()
        },
    }
}

/// The address of the worker that loads a script.
pub fn worker_url(script: &str) -> (r: String)
    ensures
        r@ == "./worker.js?script="@ + script@,
{
    let mut out = "./worker.js?script=".to_string();
    out.append(script);
    out
}

/// The last segment of an address is its end, without a slash, and begins at the address
/// or behind a slash.
pub proof fn lemma_last_segment(s: Seq<char>, end: int)
    requires
        0 <= end <= s.len(),
    ensures
        ({
            let seg = last_segment(s, end);
            let start = end - seg.len();
            &&& 0 <= start
            &&& seg == s.subrange(start, end)
            &&& !seg.contains('/')
            &&& start == 0 || s[start - 1] == '/'
        }),
    decreases end,
{
    let seg = last_segment(s, end);
    if end > 0 && s[end - 1] != '/' {
        lemma_last_segment(s, end - 1);
        let before = last_segment(s, end - 1);
        let start = end - seg.len();
        assert(seg =~= s.subrange(start, end));
        assert(!seg.contains('/')) by {
            if seg.contains('/') {
                let k = choose|k: int| 0 <= k < seg.len() && seg[k] == '/';
                assert(k < before.len());
                assert(before[k] == '/');
                assert(before.contains('/'));
            }
        }
    } else {
        assert(seg =~= s.subrange(end, end));
    }
}

/// A search finds the first place where the pattern stands, if it stands anywhere.
pub proof fn lemma_first_from(s: Seq<char>, pattern: Seq<char>, p: int)
    requires
        0 <= p,
    ensures
        match first_from(s, pattern, p) {
            Some(at) => {
                &&& p <= at
                &&& stands_at(s, pattern, at)
                &&& forall|q: int| p <= q < at ==> !#[trigger] stands_at(s, pattern, q)
            },
            None => forall|q: int| p <= q ==> !#[trigger] stands_at(s, pattern, q),
        },
    decreases s.len() + 1 - p,
{
    if p + pattern.len() <= s.len() && !stands_at(s, pattern, p) {
        lemma_first_from(s, pattern, p + 1);
    }
}

/// The script that a stack trace mentions stands in the trace: from the first place of
/// the project's name to the end of the first file ending behind it.
pub proof fn lemma_mentioned_script(stack: Seq<char>)
    ensures
        match mentioned_script(stack) {
            Some(name) => exists|start: int, end: int|
                {
                    &&& 0 <= start <= end
                    &&& end + 3 <= stack.len()
                    &&& name == #[trigger] stack.subrange(start, end + 3)
                    &&& stands_at(stack, "obamify-"@, start)
                    &&& stands_at(stack, ".js"@, end)
                    &&& forall|q: int| 0 <= q < start ==> !#[trigger] stands_at(stack, "obamify-"@, q)
                    &&& forall|q: int| start <= q < end ==> !#[trigger] stands_at(stack, ".js"@, q)
                },
            None => forall|p: int, q: int|
                p <= q && #[trigger] stands_at(stack, "obamify-"@, p) && (forall|o: int|
                    0 <= o < p ==> !#[trigger] stands_at(stack, "obamify-"@, o))
                    ==> !#[trigger] stands_at(stack, ".js"@, q),
        },
{
    reveal_strlit("obamify-");
    reveal_strlit(".js");
    lemma_first_from(stack, "obamify-"@, 0);
    match first_from(stack, "obamify-"@, 0) {
        None => {},
        Some(start) => {
            let rest = stack.skip(start);
            lemma_first_from(rest, ".js"@, 0);
            assert forall|q: int| start <= q implies stands_at(stack, ".js"@, q) == #[trigger] stands_at(
                rest,
                ".js"@,
                q - start,
            ) by {
                if q + 3 <= stack.len() {
                    assert(rest.subrange(q - start, q - start + 3) =~= stack.subrange(q, q + 3));
                }
            }
            match first_from(rest, ".js"@, 0) {
                Some(e) => {
                    let end = start + e;
                    assert(rest.take(e + 3) =~= stack.subrange(start, end + 3));
                    assert(stands_at(rest, ".js"@, end - start));
                    assert forall|q: int| start <= q < end implies !#[trigger] stands_at(
                        stack,
                        ".js"@,
                        q,
                    ) by {
                        assert(!stands_at(rest, ".js"@, q - start));
                    }
                },
                None => {
                    assert forall|p: int, q: int|
                        p <= q && #[trigger] stands_at(stack, "obamify-"@, p) && (forall|o: int|
                            0 <= o < p ==> !#[trigger] stands_at(
                                stack,
                                "obamify-"@,
                                o,
                            )) implies !#[trigger] stands_at(stack, ".js"@, q) by {
                        assert(p == start) by {
                            if p > start {
                                assert(!stands_at(stack, "obamify-"@, start));
                            } else if p < start {
                                assert(!stands_at(stack, "obamify-"@, p));
                            }
                        }
                        assert(!stands_at(rest, ".js"@, q - start));
                    }
                },
            }
        },
    }
}

} // verus!
