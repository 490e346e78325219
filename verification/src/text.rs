//! Characters, words and strings: how a message is cut into words, how a
//! word is normalized, and how words are put back together into a reply.
use vstd::prelude::*;
use vstd::string::StringExecFns;

verus! {

// ---------------------------------------------------------------------------
// Characters
// ---------------------------------------------------------------------------

/// Unicode `White_Space`, the property that `char::is_whitespace` tests.
pub open spec fn is_ws(c: char) -> bool {
    let n = c as u32;
    (9 <= n <= 13) || n == 32 || n == 0x85 || n == 0xA0 || n == 0x1680 || (0x2000 <= n <= 0x200A)
        || n == 0x2028 || n == 0x2029 || n == 0x202F || n == 0x205F || n == 0x3000
}

/// ASCII lower-casing: `A`..`Z` become `a`..`z`, every other character stays.
pub open spec fn lower_char(c: char) -> char {
    if 'A' <= c && c <= 'Z' {
        ((c as u32) + 32) as char
    } else {
        c
    }
}

/// Whether `c` is white space in the sense of Unicode's `White_Space` property.
pub fn is_whitespace(c: char) -> (r: bool)
    ensures
        r == is_ws(c),
{
    let n = c as u32;
    (9 <= n && n <= 13) || n == 32 || n == 0x85 || n == 0xA0 || n == 0x1680 || (0x2000 <= n && n
        <= 0x200A) || n == 0x2028 || n == 0x2029 || n == 0x202F || n == 0x205F || n == 0x3000
}

pub fn to_lower(c: char) -> (r: char)
    ensures
        r == lower_char(c),
{
    if 'A' <= c && c <= 'Z' {
        let b: u8 = c as u8;
        assert(c as u32 == b as u32);
        (b + 32) as char
    } else {
        c
    }
}

// ---------------------------------------------------------------------------
// Words
// ---------------------------------------------------------------------------

/// Reading `s` from the left: the words completed so far and the word being read.
pub open spec fn split_state(s: Seq<char>) -> (Seq<Seq<char>>, Seq<char>)
    decreases s.len(),
{
    if s.len() == 0 {
        (Seq::empty(), Seq::empty())
    } else {
        let (done, cur) = split_state(s.drop_last());
        if is_ws(s.last()) {
            if cur.len() > 0 {
                (done.push(cur), Seq::empty())
            } else {
                (done, Seq::empty())
            }
        } else {
            (done, cur.push(s.last()))
        }
    }
}

/// The maximal runs of non-white-space characters of `s`, in order
/// (what `str::split_whitespace` yields).
pub open spec fn words(s: Seq<char>) -> Seq<Seq<char>> {
    let (done, cur) = split_state(s);
    if cur.len() > 0 {
        done.push(cur)
    } else {
        done
    }
}

pub open spec fn starts_with(w: Seq<char>, p: Seq<char>) -> bool {
    p.len() <= w.len() && w.take(p.len() as int) == p
}

pub open spec fn ends_with(w: Seq<char>, p: Seq<char>) -> bool {
    p.len() <= w.len() && w.skip(w.len() - p.len()) == p
}

pub open spec fn http_prefix() -> Seq<char> {
    seq!['h', 't', 't', 'p', ':', '/', '/']
}

pub open spec fn https_prefix() -> Seq<char> {
    seq!['h', 't', 't', 'p', 's', ':', '/', '/']
}

/// A word that is a link keeps its case.
pub open spec fn is_link(w: Seq<char>) -> bool {
    starts_with(w, http_prefix()) || starts_with(w, https_prefix())
}

/// A user mention such as `<@1234>`.
pub open spec fn is_mention(w: Seq<char>) -> bool {
    starts_with(w, seq!['<', '@']) && ends_with(w, seq!['>'])
}

/// The form under which a word is learned: links as they are, every other
/// word in ASCII lower case.
pub open spec fn normalize(w: Seq<char>) -> Seq<char> {
    if is_link(w) {
        w
    } else {
        w.map_values(|c: char| lower_char(c))
    }
}

// ---------------------------------------------------------------------------
// Replies
// ---------------------------------------------------------------------------

/// Number of UTF-16 code units that encode `s`.
pub open spec fn utf16_len(s: Seq<char>) -> nat
    decreases s.len(),
{
    if s.len() == 0 {
        0
    } else {
        utf16_len(s.drop_last()) + if (s.last() as u32) >= 0x10000 {
            2nat
        } else {
            1nat
        }
    }
}

/// Every character of `s` is white space (so `s.trim()` is empty).
pub open spec fn all_ws(s: Seq<char>) -> bool {
    forall|i: int| 0 <= i < s.len() ==> is_ws(#[trigger] s[i])
}

/// The words of `ws` with one space between each two.
pub open spec fn join_words(ws: Seq<Seq<char>>) -> Seq<char>
    decreases ws.len(),
{
    if ws.len() == 0 {
        Seq::empty()
    } else if ws.len() == 1 {
        ws[0]
    } else {
        join_words(ws.drop_last()) + seq![' '] + ws.last()
    }
}

// ---------------------------------------------------------------------------
// Executable helpers
// ---------------------------------------------------------------------------

/// Appends one character to a string (`String::push`).
#[verifier::external_body]
pub(crate) fn push_char(s: &mut String, c: char)
    ensures
        final(s)@ == old(s)@.push(c),
{
    s.push(c)
}

/// The characters of `s`.
pub fn chars_of(s: &str) -> (v: Vec<char>)
    ensures
        v@ == s@,
{
    let mut v: Vec<char> = Vec::new();
    for c in it: s.chars()
        invariant
            v@ == it.seq().take(it.index() as int),
            it.seq() == s@,
    {
        v.push(c);
    }
    v
}

/// The string made of the characters `v[from..]`.
pub fn string_from(v: &Vec<char>, from: usize) -> (s: String)
    requires
        from <= v.len(),
    ensures
        s@ == v@.skip(from as int),
{
    let mut s = String::new();
    let mut i = from;
    while i < v.len()
        invariant
            from <= i <= v.len(),
            s@ == v@.subrange(from as int, i as int),
        decreases v.len() - i,
    {
        push_char(&mut s, v[i]);
        i += 1;
        assert(s@ =~= v@.subrange(from as int, i as int));
    }
    assert(v@.subrange(from as int, v.len() as int) =~= v@.skip(from as int));
    s
}

pub fn starts_with_chars(w: &Vec<char>, p: &Vec<char>) -> (r: bool)
    ensures
        r == starts_with(w@, p@),
{
    if p.len() > w.len() {
        return false;
    }
    let mut i: usize = 0;
    while i < p.len()
        invariant
            p.len() <= w.len(),
            i <= p.len(),
            forall|j: int| 0 <= j < i ==> w@[j] == p@[j],
        decreases p.len() - i,
    {
        if w[i] != p[i] {
            assert(w@.take(p.len() as int)[i as int] != p@[i as int]);
            return false;
        }
        i += 1;
    }
    assert(w@.take(p.len() as int) =~= p@);
    true
}

pub fn ends_with_chars(w: &Vec<char>, p: &Vec<char>) -> (r: bool)
    ensures
        r == ends_with(w@, p@),
{
    if p.len() > w.len() {
        return false;
    }
    let off = w.len() - p.len();
    let mut i: usize = 0;
    while i < p.len()
        invariant
            p.len() <= w.len(),
            off == w.len() - p.len(),
            i <= p.len(),
            forall|j: int| 0 <= j < i ==> w@[off + j] == p@[j],
        decreases p.len() - i,
    {
        if w[off + i] != p[i] {
            assert(w@.skip(off as int)[i as int] != p@[i as int]);
            return false;
        }
        i += 1;
    }
    assert(w@.skip(off as int) =~= p@);
    true
}

pub fn is_link_chars(w: &Vec<char>) -> (r: bool)
    ensures
        r == is_link(w@),
{
    let http = vec!['h', 't', 't', 'p', ':', '/', '/'];
    let https = vec!['h', 't', 't', 'p', 's', ':', '/', '/'];
    assert(http@ =~= http_prefix());
    assert(https@ =~= https_prefix());
    starts_with_chars(w, &http) || starts_with_chars(w, &https)
}

pub fn is_mention_chars(w: &Vec<char>) -> (r: bool)
    ensures
        r == is_mention(w@),
{
    let open = vec!['<', '@'];
    let close = vec!['>'];
    assert(open@ =~= seq!['<', '@']);
    assert(close@ =~= seq!['>']);
    starts_with_chars(w, &open) && ends_with_chars(w, &close)
}

/// The normalized form of a word, as a string.
pub fn normalize_chars(w: &Vec<char>) -> (s: String)
    ensures
        s@ == normalize(w@),
{
    if is_link_chars(w) {
        assert(w@.skip(0) =~= w@);
        string_from(w, 0)
    } else {
        let mut s = String::new();
        let mut i: usize = 0;
        while i < w.len()
            invariant
                i <= w.len(),
                s@ == w@.take(i as int).map_values(|c: char| lower_char(c)),
            decreases w.len() - i,
        {
            let c = to_lower(w[i]);
            push_char(&mut s, c);
            i += 1;
            assert(s@ =~= w@.take(i as int).map_values(|c: char| lower_char(c)));
        }
        assert(w@.take(w.len() as int) =~= w@);
        s
    }
}

/// The words of a character sequence (`str::split_whitespace`).
pub fn split_words(v: &Vec<char>) -> (ws: Vec<Vec<char>>)
    ensures
        ws@.map_values(|w: Vec<char>| w@) == words(v@),
        forall|i: int| 0 <= i < ws.len() ==> (#[trigger] ws@[i])@.len() > 0,
{
    let mut done: Vec<Vec<char>> = Vec::new();
    let mut cur: Vec<char> = Vec::new();
    let mut i: usize = 0;
    while i < v.len()
        invariant
            i <= v.len(),
            (done@.map_values(|w: Vec<char>| w@), cur@) == split_state(v@.take(i as int)),
            forall|j: int| 0 <= j < done.len() ==> (#[trigger] done@[j])@.len() > 0,
        decreases v.len() - i,
    {
        let c = v[i];
        let ghost prev = v@.take(i as int);
        assert(v@.take(i + 1).drop_last() =~= prev);
        assert(v@.take(i + 1).last() == c);
        if is_whitespace(c) {
            if cur.len() > 0 {
                let ghost old_done = done@;
                let w = cur;
                cur = Vec::new();
                done.push(w);
                assert(done@.map_values(|w: Vec<char>| w@) =~= old_done.map_values(
                    |w: Vec<char>| w@,
                ).push(w@));
            } else {
                cur = Vec::new();
            }
        } else {
            cur.push(c);
        }
        i += 1;
        assert(cur@ == split_state(v@.take(i as int)).1);
    }
    assert(v@.take(v.len() as int) =~= v@);
    if cur.len() > 0 {
        let ghost old_done = done@;
        done.push(cur);
        assert(done@.map_values(|w: Vec<char>| w@) =~= old_done.map_values(|w: Vec<char>| w@).push(
            split_state(v@).1,
        ));
    }
    done
}

pub proof fn lemma_utf16_prefix(s: Seq<char>, i: int)
    requires
        0 <= i <= s.len(),
    ensures
        utf16_len(s.take(i)) <= utf16_len(s),
    decreases s.len(),
{
    if i < s.len() {
        lemma_utf16_prefix(s.drop_last(), i);
        assert(s.drop_last().take(i) =~= s.take(i));
    } else {
        assert(s.take(i) =~= s);
    }
}

/// Whether `s` takes fewer than `limit` UTF-16 code units.
pub fn utf16_shorter_than(s: &Vec<char>, limit: usize) -> (r: bool)
    ensures
        r == (utf16_len(s@) < limit),
{
    if limit == 0 {
        return false;
    }
    let mut n: usize = 0;
    let mut i: usize = 0;
    assert(s@.take(0) =~= Seq::<char>::empty());
    while i < s.len()
        invariant
            i <= s.len(),
            n == utf16_len(s@.take(i as int)),
            n < limit,
        decreases s.len() - i,
    {
        assert(s@.take(i + 1).drop_last() =~= s@.take(i as int));
        let c = s[i];
        let step: usize = if (c as u32) >= 0x10000 {
            2
        } else {
            1
        };
        i += 1;
        if step >= limit - n {
            proof {
                lemma_utf16_prefix(s@, i as int);
            }
            return false;
        }
        n = n + step;
    }
    assert(s@.take(i as int) =~= s@);
    true
}

/// Whether every character of `s` is white space.
pub fn is_blank(s: &Vec<char>) -> (r: bool)
    ensures
        r == all_ws(s@),
{
    let mut i: usize = 0;
    while i < s.len()
        invariant
            i <= s.len(),
            forall|j: int| 0 <= j < i ==> is_ws(#[trigger] s@[j]),
        decreases s.len() - i,
    {
        if !is_whitespace(s[i]) {
            return false;
        }
        i += 1;
    }
    true
}

/// The words joined with single spaces.
pub fn join_with_spaces(ws: &Vec<String>) -> (r: String)
    ensures
        r@ == join_words(ws@.map_values(|w: String| w@)),
{
    let ghost wv = ws@.map_values(|w: String| w@);
    let mut r = String::new();
    let mut i: usize = 0;
    while i < ws.len()
        invariant
            i <= ws.len(),
            wv == ws@.map_values(|w: String| w@),
            r@ == join_words(wv.take(i as int)),
        decreases ws.len() - i,
    {
        assert(wv.take(i + 1).drop_last() =~= wv.take(i as int));
        assert(wv.take(i + 1).last() == ws@[i as int]@);
        if i > 0 {
            push_char(&mut r, ' ');
        } else {
            assert(r@ =~= Seq::<char>::empty());
        }
        r.append(ws[i].as_str());
        i += 1;
        assert(r@ =~= join_words(wv.take(i as int)));
    }
    assert(wv.take(i as int) =~= wv);
    r
}

} // verus!
