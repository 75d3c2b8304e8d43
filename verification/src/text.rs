//! Text handling: whitespace trimming, splitting a multi-document YAML
//! stream on its `---` separators, and decimal `u32` parsing.

use vstd::prelude::*;

verus! {

/// Unicode `White_Space`, the characters `str::trim` removes.
pub open spec fn is_ws_code(c: u32) -> bool {
    ||| 9 <= c <= 13
    ||| c == 32
    ||| c == 0x85
    ||| c == 0xA0
    ||| c == 0x1680
    ||| 0x2000 <= c <= 0x200A
    ||| c == 0x2028
    ||| c == 0x2029
    ||| c == 0x202F
    ||| c == 0x205F
    ||| c == 0x3000
}

pub open spec fn is_ws(c: char) -> bool {
    is_ws_code(c as u32)
}

pub fn is_whitespace(c: char) -> (r: bool)
    ensures
        r == is_ws(c),
{
    let x = c as u32;
    (9 <= x && x <= 13) || x == 32 || x == 0x85 || x == 0xA0 || x == 0x1680 || (0x2000 <= x && x
        <= 0x200A) || x == 0x2028 || x == 0x2029 || x == 0x202F || x == 0x205F || x == 0x3000
}

/// `t` without its leading whitespace.
pub open spec fn trim_start(t: Seq<char>) -> Seq<char>
    decreases t.len(),
{
    if t.len() > 0 && is_ws(t[0]) {
        trim_start(t.drop_first())
    } else {
        t
    }
}

/// `t` without its trailing whitespace.
pub open spec fn trim_end(t: Seq<char>) -> Seq<char>
    decreases t.len(),
{
    if t.len() > 0 && is_ws(t.last()) {
        trim_end(t.drop_last())
    } else {
        t
    }
}

/// `t` without leading and trailing whitespace.
pub open spec fn trim(t: Seq<char>) -> Seq<char> {
    trim_end(trim_start(t))
}

/// The document separator `\n---` starts at position `i` of `s`.
pub open spec fn sep_at(s: Seq<char>, i: int) -> bool {
    &&& 0 <= i
    &&& i + 4 <= s.len()
    &&& s[i] == '\n'
    &&& s[i + 1] == '-'
    &&& s[i + 2] == '-'
    &&& s[i + 3] == '-'
}

/// Position of the first separator at or after `i`, or -1 when there is none.
pub open spec fn next_sep(s: Seq<char>, i: int) -> int
    decreases s.len() - i,
{
    if i < 0 || i + 4 > s.len() {
        -1
    } else if sep_at(s, i) {
        i
    } else {
        next_sep(s, i + 1)
    }
}

pub proof fn lemma_next_sep(s: Seq<char>, i: int)
    requires
        0 <= i,
    ensures
        next_sep(s, i) == -1 || (i <= next_sep(s, i) && sep_at(s, next_sep(s, i))),
    decreases s.len() - i,
{
    if i + 4 <= s.len() && !sep_at(s, i) {
        lemma_next_sep(s, i + 1);
    }
}

/// The trimmed, non-empty pieces of `s` from position `start` on, where
/// pieces are separated by `\n---` (leftmost separators first).
pub open spec fn chunks_from(s: Seq<char>, start: int) -> Seq<Seq<char>>
    decreases s.len() - start,
{
    if start < 0 || start > s.len() {
        Seq::empty()
    } else {
        let k = next_sep(s, start);
        let end = if k < 0 { s.len() as int } else { k };
        let t = trim(s.subrange(start, end));
        let rest = if k < 0 {
            Seq::<Seq<char>>::empty()
        } else {
            proof {
                lemma_next_sep(s, start);
            }
            chunks_from(s, k + 4)
        };
        if t.len() == 0 {
            rest
        } else {
            seq![t] + rest
        }
    }
}

/// The documents of a YAML stream: the text split on `\n---`, each piece
/// trimmed, empty pieces dropped.
pub open spec fn document_chunks(s: Seq<char>) -> Seq<Seq<char>> {
    chunks_from(s, 0)
}

/// The characters of `s`, in order.
fn chars_of(s: &str) -> (v: Vec<char>)
    ensures
        v@ == s@,
{
    let n = s.unicode_len();
    let mut v: Vec<char> = Vec::new();
    let mut i: usize = 0;
    while i < n
        invariant
            n == s@.len(),
            i <= n,
            v@ == s@.take(i as int),
        decreases n - i,
    {
        v.push(s.get_char(i));
        assert(s@.take(i as int + 1) =~= s@.take(i as int).push(s@[i as int]));
        i = i + 1;
    }
    assert(s@.take(n as int) =~= s@);
    v
}

/// Position of the first separator at or after `i`, if any.
fn find_sep(cs: &Vec<char>, i: usize) -> (r: Option<usize>)
    requires
        i <= cs@.len(),
    ensures
        match r {
            Some(k) => k as int == next_sep(cs@, i as int) && i <= k,
            None => next_sep(cs@, i as int) == -1,
        },
{
    let mut j: usize = i;
    while cs.len() - j >= 4
        invariant
            i <= j <= cs@.len(),
            next_sep(cs@, i as int) == next_sep(cs@, j as int),
        decreases cs@.len() - j,
    {
        if cs[j] == '\n' && cs[j + 1] == '-' && cs[j + 2] == '-' && cs[j + 3] == '-' {
            return Some(j);
        }
        j = j + 1;
    }
    None
}

/// The bounds of `trim(cs[start..end])`.
fn trim_bounds(cs: &Vec<char>, start: usize, end: usize) -> (r: (usize, usize))
    requires
        start <= end <= cs@.len(),
    ensures
        start <= r.0 <= r.1 <= end,
        cs@.subrange(r.0 as int, r.1 as int) == trim(cs@.subrange(start as int, end as int)),
{
    let ghost s = cs@;
    let mut a: usize = start;
    while a < end && is_whitespace(cs[a])
        invariant
            start <= a <= end <= s.len(),
            s == cs@,
            trim_start(s.subrange(start as int, end as int)) == trim_start(s.subrange(a as int, end as int)),
        decreases end - a,
    {
        assert(s.subrange(a as int, end as int).drop_first() =~= s.subrange(a as int + 1, end as int));
        a = a + 1;
    }
    let mut b: usize = end;
    while b > a && is_whitespace(cs[b - 1])
        invariant
            start <= a <= b <= end <= s.len(),
            s == cs@,
            trim_start(s.subrange(start as int, end as int)) == s.subrange(a as int, end as int),
            trim(s.subrange(start as int, end as int)) == trim_end(s.subrange(a as int, b as int)),
        decreases b - a,
    {
        assert(s.subrange(a as int, b as int).drop_last() =~= s.subrange(a as int, b as int - 1));
        b = b - 1;
    }
    (a, b)
}

/// The documents of a YAML stream: split on `\n---`, each piece trimmed,
/// empty pieces dropped.
pub fn split_documents(content: &str) -> (docs: Vec<String>)
    ensures
        docs@.map_values(|d: String| d@) == document_chunks(content@),
{
    let cs = chars_of(content);
    let ghost s = cs@;
    let mut docs: Vec<String> = Vec::new();
    let mut pos: usize = 0;
    loop
        invariant
            s == cs@,
            s == content@,
            pos <= s.len(),
            docs@.map_values(|d: String| d@) + chunks_from(s, pos as int) == chunks_from(s, 0),
        decreases s.len() - pos,
    {
        let k = find_sep(&cs, pos);
        let end = match k {
            Some(k) => k,
            None => cs.len(),
        };
        proof {
            lemma_next_sep(s, pos as int);
        }
        let (a, b) = trim_bounds(&cs, pos, end);
        let ghost before = docs@.map_values(|d: String| d@);
        if a < b {
            let piece = content.substring_char(a, b);
            docs.push(String::from_str(piece));
            assert(docs@.map_values(|d: String| d@) =~= before.push(s.subrange(a as int, b as int)));
        }
        match k {
            Some(k) => {
                assert(chunks_from(s, pos as int) == (if a < b {
                    seq![s.subrange(a as int, b as int)]
                } else {
                    Seq::empty()
                }) + chunks_from(s, k + 4));
                if a < b {
                    assert(before + chunks_from(s, pos as int) =~= docs@.map_values(|d: String| d@)
                        + chunks_from(s, k + 4));
                } else {
                    assert(chunks_from(s, pos as int) =~= chunks_from(s, k + 4));
                }
                pos = k + 4;
            },
            None => {
                assert(chunks_from(s, pos as int) == (if a < b {
                    seq![s.subrange(a as int, b as int)]
                } else {
                    Seq::empty()
                }));
                assert(docs@.map_values(|d: String| d@) =~= chunks_from(s, 0));
                return docs;
            },
        }
    }
}

pub open spec fn is_digit(c: char) -> bool {
    '0' <= c <= '9'
}

pub open spec fn all_digits(t: Seq<char>) -> bool {
    forall|i: int| 0 <= i < t.len() ==> is_digit(#[trigger] t[i])
}

/// The number a string of decimal digits denotes.
pub open spec fn digits_value(t: Seq<char>) -> nat
    decreases t.len(),
{
    if t.len() == 0 {
        0
    } else {
        digits_value(t.drop_last()) * 10 + ((t.last() as u32) - ('0' as u32)) as nat
    }
}

/// What `str::parse::<u32>` accepts: an optional `+`, then one or more
/// decimal digits denoting at most `u32::MAX`.
pub open spec fn parsed_u32(s: Seq<char>) -> Option<u32> {
    let t = if s.len() > 0 && s[0] == '+' {
        s.drop_first()
    } else {
        s
    };
    if t.len() > 0 && all_digits(t) && digits_value(t) <= u32::MAX {
        Some(digits_value(t) as u32)
    } else {
        None
    }
}

proof fn lemma_digits_prefix(t: Seq<char>, k: int)
    requires
        all_digits(t),
        0 <= k <= t.len(),
    ensures
        digits_value(t.take(k)) <= digits_value(t),
    decreases t.len(),
{
    if k < t.len() {
        assert(t.drop_last().take(k) =~= t.take(k));
        lemma_digits_prefix(t.drop_last(), k);
    } else {
        assert(t.take(k) =~= t);
    }
}

/// The decimal `u32` that `s` denotes, as `str::parse::<u32>` reads it.
pub fn parse_u32(s: &str) -> (r: Option<u32>)
    ensures
        r == parsed_u32(s@),
{
    let n = s.unicode_len();
    let mut i: usize = 0;
    if n > 0 && s.get_char(0) == '+' {
        i = 1;
    }
    let ghost t = if s@.len() > 0 && s@[0] == '+' { s@.drop_first() } else { s@ };
    assert(t =~= s@.skip(i as int));
    if i == n {
        return None;
    }
    let mut v: u64 = 0;
    let mut j: usize = i;
    while j < n
        invariant
            n == s@.len(),
            i <= j <= n,
            t == s@.skip(i as int),
            t == (if s@.len() > 0 && s@[0] == '+' { s@.drop_first() } else { s@ }),
            t.len() > 0,
            all_digits(t.take(j - i)),
            v == digits_value(t.take(j - i)),
            v <= u32::MAX,
        decreases n - j,
    {
        let c = s.get_char(j);
        assert(c == t[j - i]);
        assert(t.take(j - i + 1).drop_last() =~= t.take(j - i));
        if !('0' <= c && c <= '9') {
            assert(!is_digit(t[j - i]));
            return None;
        }
        let d = (c as u32 - '0' as u32) as u64;
        v = v * 10 + d;
        if v > 0xffff_ffff {
            proof {
                if all_digits(t) {
                    lemma_digits_prefix(t, j - i + 1);
                }
            }
            return None;
        }
        j = j + 1;
    }
    assert(t.take(n - i) =~= t);
    Some(v as u32)
}

} // verus!
