//! Text as sequences of characters: the conversions, trimming, searching and
//! comparisons the parsers and emitters share.

use vstd::prelude::*;

verus! {

/// `String::push`: the string grows by one character at the end.
#[verifier::external_body]
pub fn push_char(s: &mut String, c: char)
    ensures
        final(s)@ == old(s)@.push(c),
{
    s.push(c);
}

/// The characters of a string slice, in order.
pub fn chars_of(s: &str) -> (out: Vec<char>)
    ensures
        out@ == s@,
{
    let mut out: Vec<char> = Vec::new();
    for c in it: s.chars()
        invariant
            out@ == it.seq().take(it.index() as int),
    {
        out.push(c);
    }
    out
}

/// A string holding these characters.
pub fn string_of(cs: &Vec<char>) -> (s: String)
    ensures
        s@ == cs@,
{
    let mut s = String::new();
    let mut i: usize = 0;
    while i < cs.len()
        invariant
            i <= cs.len(),
            s@ == cs@.take(i as int),
        decreases cs.len() - i,
    {
        push_char(&mut s, cs[i]);
        proof {
            assert(cs@.take(i as int).push(cs@[i as int]) =~= cs@.take(i + 1));
        }
        i += 1;
    }
    proof {
        assert(cs@.take(cs.len() as int) =~= cs@);
    }
    s
}

/// `s` with `cs` appended.
pub fn push_all(s: &mut String, cs: &Vec<char>)
    ensures
        final(s)@ == old(s)@ + cs@,
{
    let ghost start = s@;
    let mut i: usize = 0;
    while i < cs.len()
        invariant
            i <= cs.len(),
            s@ == start + cs@.take(i as int),
        decreases cs.len() - i,
    {
        push_char(s, cs[i]);
        proof {
            assert(start + cs@.take(i as int) + seq![cs@[i as int]] =~= start + cs@.take(i + 1));
        }
        i += 1;
    }
    proof {
        assert(cs@.take(cs.len() as int) =~= cs@);
    }
}

/// `s` with the characters of `t` appended.
pub fn push_str(s: &mut String, t: &str)
    ensures
        final(s)@ == old(s)@ + t@,
{
    let cs = chars_of(t);
    push_all(s, &cs);
}

/// Unicode `White_Space`, the set `str::trim` removes.
pub open spec fn is_ws(c: char) -> bool {
    ||| c == ' '
    ||| ('\u{9}' <= c && c <= '\u{d}')
    ||| c == '\u{85}'
    ||| c == '\u{a0}'
    ||| c == '\u{1680}'
    ||| ('\u{2000}' <= c && c <= '\u{200a}')
    ||| c == '\u{2028}'
    ||| c == '\u{2029}'
    ||| c == '\u{202f}'
    ||| c == '\u{205f}'
    ||| c == '\u{3000}'
}

pub fn ws(c: char) -> (b: bool)
    ensures
        b == is_ws(c),
{
    c == ' ' || ('\u{9}' <= c && c <= '\u{d}') || c == '\u{85}' || c == '\u{a0}' || c
        == '\u{1680}' || ('\u{2000}' <= c && c <= '\u{200a}') || c == '\u{2028}' || c
        == '\u{2029}' || c == '\u{202f}' || c == '\u{205f}' || c == '\u{3000}'
}

/// `s` without leading white space.
pub open spec fn trim_start(s: Seq<char>) -> Seq<char>
    decreases s.len(),
{
    if s.len() > 0 && is_ws(s[0]) {
        trim_start(s.drop_first())
    } else {
        s
    }
}

/// `s` without trailing white space.
pub open spec fn trim_end(s: Seq<char>) -> Seq<char>
    decreases s.len(),
{
    if s.len() > 0 && is_ws(s.last()) {
        trim_end(s.drop_last())
    } else {
        s
    }
}

/// `str::trim`.
pub open spec fn trim(s: Seq<char>) -> Seq<char> {
    trim_end(trim_start(s))
}

proof fn lemma_trim_start_skip(s: Seq<char>, i: int)
    requires
        0 <= i <= s.len(),
        forall|j: int| 0 <= j < i ==> is_ws(#[trigger] s[j]),
    ensures
        trim_start(s) == trim_start(s.skip(i)),
    decreases i,
{
    if i > 0 {
        assert(s.drop_first().skip(i - 1) =~= s.skip(i));
        lemma_trim_start_skip(s.drop_first(), i - 1);
    } else {
        assert(s.skip(0) =~= s);
    }
}

proof fn lemma_trim_end_take(s: Seq<char>, i: int)
    requires
        0 <= i <= s.len(),
        forall|j: int| i <= j < s.len() ==> is_ws(#[trigger] s[j]),
    ensures
        trim_end(s) == trim_end(s.take(i)),
    decreases s.len() - i,
{
    if i < s.len() {
        assert(s.drop_last().take(i) =~= s.take(i));
        lemma_trim_end_take(s.drop_last(), i);
    } else {
        assert(s.take(i) =~= s);
    }
}

/// `s[lo..hi]`.
pub fn slice(s: &Vec<char>, lo: usize, hi: usize) -> (out: Vec<char>)
    requires
        lo <= hi <= s.len(),
    ensures
        out@ == s@.subrange(lo as int, hi as int),
{
    let mut out: Vec<char> = Vec::new();
    let mut i = lo;
    while i < hi
        invariant
            lo <= i <= hi <= s.len(),
            out@ == s@.subrange(lo as int, i as int),
        decreases hi - i,
    {
        out.push(s[i]);
        proof {
            assert(s@.subrange(lo as int, i as int).push(s@[i as int]) =~= s@.subrange(
                lo as int,
                i + 1,
            ));
        }
        i += 1;
    }
    out
}

/// `str::trim_start`.
pub fn trimmed_start(s: &Vec<char>) -> (out: Vec<char>)
    ensures
        out@ == trim_start(s@),
{
    let mut i: usize = 0;
    while i < s.len() && ws(s[i])
        invariant
            i <= s.len(),
            forall|j: int| 0 <= j < i ==> is_ws(#[trigger] s@[j]),
        decreases s.len() - i,
    {
        i += 1;
    }
    proof {
        lemma_trim_start_skip(s@, i as int);
        assert(s@.skip(i as int) =~= s@.subrange(i as int, s.len() as int));
    }
    slice(s, i, s.len())
}

/// `str::trim_end`.
pub fn trimmed_end(s: &Vec<char>) -> (out: Vec<char>)
    ensures
        out@ == trim_end(s@),
{
    let mut i: usize = s.len();
    while i > 0 && ws(s[i - 1])
        invariant
            i <= s.len(),
            forall|j: int| i <= j < s.len() ==> is_ws(#[trigger] s@[j]),
        decreases i,
    {
        i -= 1;
    }
    proof {
        lemma_trim_end_take(s@, i as int);
        assert(s@.take(i as int) =~= s@.subrange(0, i as int));
        let t = s@.take(i as int);
        if i > 0 {
            assert(t.last() == s@[i - 1]);
        }
    }
    slice(s, 0, i)
}

/// `str::trim`.
pub fn trimmed(s: &Vec<char>) -> (out: Vec<char>)
    ensures
        out@ == trim(s@),
{
    let a = trimmed_start(s);
    trimmed_end(&a)
}

/// Whether `s` starts with `p`.
pub open spec fn starts(s: Seq<char>, p: Seq<char>) -> bool {
    p.len() <= s.len() && s.take(p.len() as int) == p
}

/// Whether `p` occurs in `s` at `i`.
pub open spec fn occurs_at(s: Seq<char>, p: Seq<char>, i: int) -> bool {
    0 <= i && i + p.len() <= s.len() && s.subrange(i, i + p.len()) == p
}

pub fn starts_with(s: &Vec<char>, p: &Vec<char>) -> (b: bool)
    ensures
        b == starts(s@, p@),
{
    let b = at(s, p, 0);
    proof {
        assert(s@.subrange(0, p@.len() as int) =~= s@.take(p@.len() as int));
    }
    b
}

/// Whether `p` occurs in `s` at `i`.
pub fn at(s: &Vec<char>, p: &Vec<char>, i: usize) -> (b: bool)
    ensures
        b == occurs_at(s@, p@, i as int),
{
    if i > s.len() || p.len() > s.len() - i {
        return false;
    }
    let mut k: usize = 0;
    while k < p.len()
        invariant
            i + p.len() <= s.len(),
            k <= p.len(),
            forall|j: int| 0 <= j < k ==> s@[i + j] == p@[j],
        decreases p.len() - k,
    {
        if s[i + k] != p[k] {
            proof {
                assert(s@.subrange(i as int, i + p.len())[k as int] != p@[k as int]);
            }
            return false;
        }
        k += 1;
    }
    proof {
        assert(s@.subrange(i as int, i + p.len()) =~= p@);
    }
    true
}

/// Whether `s` ends with `p`.
pub open spec fn ends(s: Seq<char>, p: Seq<char>) -> bool {
    p.len() <= s.len() && s.skip(s.len() - p.len()) == p
}

pub fn ends_with(s: &Vec<char>, p: &Vec<char>) -> (b: bool)
    ensures
        b == ends(s@, p@),
{
    if p.len() > s.len() {
        return false;
    }
    let b = at(s, p, s.len() - p.len());
    proof {
        assert(s@.subrange(s.len() - p.len(), s.len() as int) =~= s@.skip(s.len() - p.len()));
    }
    b
}

/// The first place at or after `i` where `p` occurs in `s`.
pub open spec fn first_from(s: Seq<char>, p: Seq<char>, i: int) -> Option<int>
    decreases s.len() + 1 - i,
{
    if i < 0 || i > s.len() {
        None
    } else if occurs_at(s, p, i) {
        Some(i)
    } else {
        first_from(s, p, i + 1)
    }
}

/// `str::find`: the first place `p` occurs in `s`.
pub open spec fn first(s: Seq<char>, p: Seq<char>) -> Option<int> {
    first_from(s, p, 0)
}

pub proof fn lemma_first_from(s: Seq<char>, p: Seq<char>, i: int)
    requires
        0 <= i <= s.len() + 1,
    ensures
        first_from(s, p, i) matches Some(k) ==> i <= k <= s.len() && occurs_at(s, p, k) && forall|
            j: int,
        |
            i <= j < k ==> !occurs_at(s, p, j),
        first_from(s, p, i) is None ==> forall|j: int| i <= j ==> !occurs_at(s, p, j),
    decreases s.len() + 1 - i,
{
    if i <= s.len() && !occurs_at(s, p, i) {
        lemma_first_from(s, p, i + 1);
    }
}

/// The first place `p` occurs in `s`, like `str::find`.
pub fn find(s: &Vec<char>, p: &Vec<char>) -> (r: Option<usize>)
    ensures
        match r {
            Some(i) => first(s@, p@) == Some(i as int),
            None => first(s@, p@) is None,
        },
        r matches Some(i) ==> occurs_at(s@, p@, i as int) && i <= s@.len(),
{
    let mut i: usize = 0;
    while i < s.len()
        invariant
            i <= s.len(),
            first(s@, p@) == first_from(s@, p@, i as int),
        decreases s.len() - i,
    {
        if at(s, p, i) {
            return Some(i);
        }
        i += 1;
    }
    if at(s, p, i) {
        return Some(i);
    }
    proof {
        assert(first_from(s@, p@, i + 1) is None);
    }
    None
}

/// The first occurrence of `c` in `s`.
pub fn find_char(s: &Vec<char>, c: char) -> (r: Option<usize>)
    ensures
        r matches Some(i) ==> i < s@.len() && s@[i as int] == c && forall|j: int|
            0 <= j < i ==> s@[j] != c,
        r is None ==> forall|j: int| 0 <= j < s@.len() ==> s@[j] != c,
{
    let mut i: usize = 0;
    while i < s.len()
        invariant
            i <= s.len(),
            forall|j: int| 0 <= j < i ==> s@[j] != c,
        decreases s.len() - i,
    {
        if s[i] == c {
            return Some(i);
        }
        i += 1;
    }
    None
}

/// `c` in ASCII lower case.
pub open spec fn lower(c: char) -> char {
    if 'A' <= c && c <= 'Z' {
        ((c as u32) + 32) as char
    } else {
        c
    }
}

pub fn to_lower(c: char) -> (r: char)
    ensures
        r == lower(c),
{
    if 'A' <= c && c <= 'Z' {
        let n = (c as u32) + 32;
        proof {
            assert(0x61 <= n <= 0x7a);
        }
        char_from(n)
    } else {
        c
    }
}

/// The character of a code point that is one: a lower-case ASCII letter here.
fn char_from(n: u32) -> (c: char)
    requires
        0x61 <= n <= 0x7a,
    ensures
        c == n as char,
{
    (n as u8) as char
}

/// `str::to_ascii_lowercase`.
pub fn lowered(s: &Vec<char>) -> (out: Vec<char>)
    ensures
        out@ == s@.map_values(|c: char| lower(c)),
{
    let mut out: Vec<char> = Vec::new();
    let mut i: usize = 0;
    while i < s.len()
        invariant
            i <= s.len(),
            out@ == s@.take(i as int).map_values(|c: char| lower(c)),
        decreases s.len() - i,
    {
        out.push(to_lower(s[i]));
        proof {
            assert(s@.take(i as int).map_values(|c: char| lower(c)).push(lower(s@[i as int]))
                =~= s@.take(i + 1).map_values(|c: char| lower(c)));
        }
        i += 1;
    }
    proof {
        assert(s@.take(s.len() as int) =~= s@);
    }
    out
}

/// Whether two character sequences are equal.
pub fn same(a: &Vec<char>, b: &Vec<char>) -> (r: bool)
    ensures
        r == (a@ == b@),
{
    if a.len() != b.len() {
        return false;
    }
    let mut i: usize = 0;
    while i < a.len()
        invariant
            a.len() == b.len(),
            i <= a.len(),
            forall|j: int| 0 <= j < i ==> a@[j] == b@[j],
        decreases a.len() - i,
    {
        if a[i] != b[i] {
            return false;
        }
        i += 1;
    }
    proof {
        assert(a@ =~= b@);
    }
    true
}

/// Lexicographic order on character sequences, by code point, as `str`'s `Ord`.
pub open spec fn lex_le(a: Seq<char>, b: Seq<char>) -> bool
    decreases a.len(),
{
    if a.len() == 0 {
        true
    } else if b.len() == 0 {
        false
    } else if a[0] != b[0] {
        (a[0] as u32) < (b[0] as u32)
    } else {
        lex_le(a.drop_first(), b.drop_first())
    }
}

pub fn le(a: &Vec<char>, b: &Vec<char>) -> (r: bool)
    ensures
        r == lex_le(a@, b@),
{
    let mut i: usize = 0;
    proof {
        assert(a@.skip(0) =~= a@);
        assert(b@.skip(0) =~= b@);
    }
    while i < a.len() && i < b.len() && a[i] == b[i]
        invariant
            i <= a.len(),
            i <= b.len(),
            lex_le(a@, b@) == lex_le(a@.skip(i as int), b@.skip(i as int)),
        decreases a.len() - i,
    {
        proof {
            assert(a@.skip(i as int).drop_first() =~= a@.skip(i + 1));
            assert(b@.skip(i as int).drop_first() =~= b@.skip(i + 1));
        }
        i += 1;
    }
    if i == a.len() {
        true
    } else if i == b.len() {
        false
    } else {
        (a[i] as u32) < (b[i] as u32)
    }
}


/// `p` occurs nowhere in `s`.
pub open spec fn free_of(s: Seq<char>, p: Seq<char>) -> bool {
    forall|j: int| !#[trigger] occurs_at(s, p, j)
}

/// `trim_start` drops a prefix.
pub proof fn lemma_trim_start_suffix(s: Seq<char>)
    ensures
        exists|a: int| 0 <= a <= s.len() && trim_start(s) == s.skip(a),
    decreases s.len(),
{
    if s.len() > 0 && is_ws(s[0]) {
        lemma_trim_start_suffix(s.drop_first());
        let a = choose|a: int| 0 <= a <= s.drop_first().len() && trim_start(s.drop_first()) == s.drop_first().skip(a);
        assert(s.drop_first().skip(a) =~= s.skip(a + 1));
    } else {
        assert(s.skip(0) =~= s);
    }
}

/// `trim_end` keeps a prefix.
pub proof fn lemma_trim_end_prefix(s: Seq<char>)
    ensures
        exists|b: int| 0 <= b <= s.len() && trim_end(s) == s.take(b),
    decreases s.len(),
{
    if s.len() > 0 && is_ws(s.last()) {
        lemma_trim_end_prefix(s.drop_last());
        let b = choose|b: int| 0 <= b <= s.drop_last().len() && trim_end(s.drop_last()) == s.drop_last().take(b);
        assert(s.drop_last().take(b) =~= s.take(b));
    } else {
        assert(s.take(s.len() as int) =~= s);
    }
}

/// A piece of text free of `p` stays free of it when trimmed.
pub proof fn lemma_trim_free(s: Seq<char>, p: Seq<char>)
    requires
        free_of(s, p),
    ensures
        free_of(trim(s), p),
{
    lemma_trim_start_suffix(s);
    let a = choose|a: int| 0 <= a <= s.len() && trim_start(s) == s.skip(a);
    let t = trim_start(s);
    lemma_trim_end_prefix(t);
    let b = choose|b: int| 0 <= b <= t.len() && trim_end(t) == t.take(b);
    assert forall|j: int| !#[trigger] occurs_at(trim(s), p, j) by {
        if occurs_at(trim(s), p, j) {
            assert(trim(s).subrange(j, j + p.len()) =~= s.subrange(a + j, a + j + p.len()));
            assert(occurs_at(s, p, a + j));
        }
    }
}

/// No piece of `split(s, sep)` holds `sep`.
pub proof fn lemma_split_free(s: Seq<char>, sep: Seq<char>)
    requires
        sep.len() > 0,
    ensures
        forall|k: int| 0 <= k < split(s, sep).len() ==> free_of(#[trigger] split(s, sep)[k], sep),
    decreases s.len(),
{
    lemma_first_from(s, sep, 0);
    match first(s, sep) {
        Some(i) => {
            if 0 <= i && i + sep.len() <= s.len() {
                lemma_split_free(s.skip(i + sep.len()), sep);
                let head = s.take(i);
                assert forall|j: int| !#[trigger] occurs_at(head, sep, j) by {
                    if occurs_at(head, sep, j) {
                        assert(head.subrange(j, j + sep.len()) =~= s.subrange(j, j + sep.len()));
                        assert(occurs_at(s, sep, j));
                    }
                }
                let parts = split(s, sep);
                assert forall|k: int| 0 <= k < parts.len() implies free_of(#[trigger] parts[k], sep) by {
                    if k > 0 {
                        assert(parts[k] == split(s.skip(i + sep.len()), sep)[k - 1]);
                    } else {
                        assert(parts[0] == head);
                    }
                }
            }
        },
        None => {},
    }
}

/// What `nonempty_trimmed` keeps: trimmed pieces that are not empty.
pub open spec fn trimmed_parts(parts: Seq<Seq<char>>, out: Seq<Seq<char>>) -> bool {
    forall|k: int| 0 <= k < out.len() ==> (#[trigger] out[k]).len() > 0 && exists|j: int| 0 <= j < parts.len() && out[k] == trim(parts[j])
}

} // verus!

verus! {

/// `s` without leading copies of `c`: `str::trim_start_matches(c)`.
pub open spec fn drop_lead(s: Seq<char>, c: char) -> Seq<char>
    decreases s.len(),
{
    if s.len() > 0 && s[0] == c {
        drop_lead(s.drop_first(), c)
    } else {
        s
    }
}

/// `s` without trailing copies of `c`: `str::trim_end_matches(c)`.
pub open spec fn drop_trail(s: Seq<char>, c: char) -> Seq<char>
    decreases s.len(),
{
    if s.len() > 0 && s.last() == c {
        drop_trail(s.drop_last(), c)
    } else {
        s
    }
}

/// `str::trim_matches('"')`.
pub open spec fn unquote(s: Seq<char>) -> Seq<char> {
    drop_trail(drop_lead(s, '"'), '"')
}

proof fn lemma_drop_lead(s: Seq<char>, c: char, i: int)
    requires
        0 <= i <= s.len(),
        forall|j: int| 0 <= j < i ==> #[trigger] s[j] == c,
    ensures
        drop_lead(s, c) == drop_lead(s.skip(i), c),
    decreases i,
{
    if i > 0 {
        assert(s.drop_first().skip(i - 1) =~= s.skip(i));
        lemma_drop_lead(s.drop_first(), c, i - 1);
    } else {
        assert(s.skip(0) =~= s);
    }
}

proof fn lemma_drop_trail(s: Seq<char>, c: char, i: int)
    requires
        0 <= i <= s.len(),
        forall|j: int| i <= j < s.len() ==> #[trigger] s[j] == c,
    ensures
        drop_trail(s, c) == drop_trail(s.take(i), c),
    decreases s.len() - i,
{
    if i < s.len() {
        assert(s.drop_last().take(i) =~= s.take(i));
        lemma_drop_trail(s.drop_last(), c, i);
    } else {
        assert(s.take(i) =~= s);
    }
}

pub fn dropped_lead(s: &Vec<char>, c: char) -> (out: Vec<char>)
    ensures
        out@ == drop_lead(s@, c),
{
    let mut i: usize = 0;
    while i < s.len() && s[i] == c
        invariant
            i <= s.len(),
            forall|j: int| 0 <= j < i ==> #[trigger] s@[j] == c,
        decreases s.len() - i,
    {
        i += 1;
    }
    proof {
        lemma_drop_lead(s@, c, i as int);
        assert(s@.skip(i as int) =~= s@.subrange(i as int, s.len() as int));
    }
    slice(s, i, s.len())
}

pub fn dropped_trail(s: &Vec<char>, c: char) -> (out: Vec<char>)
    ensures
        out@ == drop_trail(s@, c),
{
    let mut i: usize = s.len();
    while i > 0 && s[i - 1] == c
        invariant
            i <= s.len(),
            forall|j: int| i <= j < s.len() ==> #[trigger] s@[j] == c,
        decreases i,
    {
        i -= 1;
    }
    proof {
        lemma_drop_trail(s@, c, i as int);
        assert(s@.take(i as int) =~= s@.subrange(0, i as int));
        let t = s@.take(i as int);
        if i > 0 {
            assert(t.last() == s@[i - 1]);
        }
    }
    slice(s, 0, i)
}

pub fn unquoted(s: &Vec<char>) -> (out: Vec<char>)
    ensures
        out@ == unquote(s@),
{
    let a = dropped_lead(s, '"');
    dropped_trail(&a, '"')
}

/// `str::split(sep)` for a non-empty `sep`: the pieces between the
/// occurrences, left to right.
pub open spec fn split(s: Seq<char>, sep: Seq<char>) -> Seq<Seq<char>>
    decreases s.len(),
{
    match first(s, sep) {
        Some(i) => if sep.len() > 0 && 0 <= i && i + sep.len() <= s.len() {
            seq![s.take(i)] + split(s.skip(i + sep.len()), sep)
        } else {
            seq![s]
        },
        None => seq![s],
    }
}

pub fn split_on(s: &Vec<char>, sep: &Vec<char>) -> (out: Vec<Vec<char>>)
    requires
        sep@.len() > 0,
    ensures
        out@.map_values(|v: Vec<char>| v@) == split(s@, sep@),
    decreases s@.len(),
{
    match find(s, sep) {
        Some(i) => {
            let head = slice(s, 0, i);
            let tail = slice(s, i + sep.len(), s.len());
            proof {
                assert(head@ =~= s@.take(i as int));
                assert(tail@ =~= s@.skip(i + sep@.len()));
            }
            let rest = split_on(&tail, sep);
            let mut out: Vec<Vec<char>> = Vec::new();
            out.push(head);
            let mut k: usize = 0;
            while k < rest.len()
                invariant
                    k <= rest.len(),
                    out@.len() == k + 1,
                    out@[0]@ == s@.take(i as int),
                    forall|j: int| 0 <= j < k ==> #[trigger] out@[j + 1]@ == rest@[j]@,
                decreases rest.len() - k,
            {
                out.push(rest[k].clone());
                k += 1;
            }
            proof {
                let l = out@.map_values(|v: Vec<char>| v@);
                let r = seq![s@.take(i as int)] + rest@.map_values(|v: Vec<char>| v@);
                assert(l.len() == r.len());
                assert forall|j: int| 0 <= j < l.len() implies l[j] == r[j] by {
                    if j > 0 {
                        assert(out@[(j - 1) + 1]@ == rest@[j - 1]@);
                    }
                }
                assert(l =~= r);
            }
            out
        },
        None => {
            let mut out: Vec<Vec<char>> = Vec::new();
            out.push(s.clone());
            proof {
                assert(out@.map_values(|v: Vec<char>| v@) =~= seq![s@]);
            }
            out
        },
    }
}

} // verus!
