//! Text handling for the inverted index and the search path: lowercasing,
//! whitespace splitting, token trimming and substring matching.
//!
//! Unicode character classes and case folding come from the standard
//! library through trusted wrappers; everything built on top of them —
//! tokenization, trimming, containment — is defined and verified here.

use vstd::prelude::*;
use vstd::string::{StringExecFns, StrSliceExecFns};

verus! {

/// The case-folded form of a piece of text, as `str::to_lowercase` computes
/// it: a function of the characters alone.
pub uninterp spec fn lower_of(s: Seq<char>) -> Seq<char>;

/// Whether a character has the Unicode `White_Space` property, as
/// `char::is_whitespace` decides it.
pub uninterp spec fn is_wspace(c: char) -> bool;

/// Whether a character is Unicode alphanumeric, as `char::is_alphanumeric`
/// decides it.
pub uninterp spec fn is_alnum(c: char) -> bool;

/// Relies on `str::to_lowercase`: the result depends on the characters
/// alone, and an empty text stays empty.
#[verifier::external_body]
pub(crate) fn to_lower(s: &str) -> (r: String)
    ensures
        r@ == lower_of(s@),
        s@.len() == 0 ==> r@.len() == 0,
{
    s.to_lowercase()
}

/// Relies on `char::is_whitespace`: a pure function of the character.
#[verifier::external_body]
pub(crate) fn char_is_wspace(c: char) -> (r: bool)
    ensures
        r == is_wspace(c),
{
    c.is_whitespace()
}

/// Relies on `char::is_alphanumeric`: a pure function of the character.
#[verifier::external_body]
pub(crate) fn char_is_alnum(c: char) -> (r: bool)
    ensures
        r == is_alnum(c),
{
    c.is_alphanumeric()
}

/// A token with its leading non-alphanumeric characters stripped.
pub open spec fn trim_start(t: Seq<char>) -> Seq<char>
    decreases t.len(),
{
    if t.len() == 0 {
        t
    } else if !is_alnum(t[0]) {
        trim_start(t.drop_first())
    } else {
        t
    }
}

/// A token with its trailing non-alphanumeric characters stripped.
pub open spec fn trim_end(t: Seq<char>) -> Seq<char>
    decreases t.len(),
{
    if t.len() == 0 {
        t
    } else if !is_alnum(t[t.len() - 1]) {
        trim_end(t.drop_last())
    } else {
        t
    }
}

/// A raw whitespace-delimited word stripped of non-alphanumeric characters
/// at both ends.
pub open spec fn trim_token(t: Seq<char>) -> Seq<char> {
    trim_end(trim_start(t))
}

/// The trimmed word `cur`, as a sequence of zero or one tokens.
pub open spec fn flush_token(cur: Seq<char>) -> Seq<Seq<char>> {
    if trim_token(cur).len() > 0 {
        seq![trim_token(cur)]
    } else {
        Seq::empty()
    }
}

/// The tokens of `s` from position `i` on, with `cur` the word read so far:
/// split on whitespace, trim each word, keep the non-empty results.
pub open spec fn tokenize_from(s: Seq<char>, i: nat, cur: Seq<char>) -> Seq<Seq<char>>
    decreases s.len() - i,
{
    if i >= s.len() {
        flush_token(cur)
    } else if is_wspace(s[i as int]) {
        flush_token(cur) + tokenize_from(s, i + 1, Seq::empty())
    } else {
        tokenize_from(s, i + 1, cur.push(s[i as int]))
    }
}

/// The index tokens of a piece of (already lowercased) text.
pub open spec fn tokens_of(s: Seq<char>) -> Seq<Seq<char>> {
    tokenize_from(s, 0, Seq::empty())
}

/// Text with leading and trailing whitespace stripped.
pub open spec fn ws_trim_start(t: Seq<char>) -> Seq<char>
    decreases t.len(),
{
    if t.len() == 0 {
        t
    } else if is_wspace(t[0]) {
        ws_trim_start(t.drop_first())
    } else {
        t
    }
}

/// Text with trailing whitespace stripped.
pub open spec fn ws_trim_end(t: Seq<char>) -> Seq<char>
    decreases t.len(),
{
    if t.len() == 0 {
        t
    } else if is_wspace(t[t.len() - 1]) {
        ws_trim_end(t.drop_last())
    } else {
        t
    }
}

/// Text stripped of whitespace at both ends.
pub open spec fn ws_trimmed(t: Seq<char>) -> Seq<char> {
    ws_trim_end(ws_trim_start(t))
}

/// The needle occurs in the haystack starting at position `i`.
pub open spec fn contains_at(hay: Seq<char>, needle: Seq<char>, i: int) -> bool {
    0 <= i && i + needle.len() <= hay.len() && hay.subrange(i, i + needle.len()) == needle
}

/// Substring containment.
pub open spec fn seq_contains(hay: Seq<char>, needle: Seq<char>) -> bool {
    exists|i: int| contains_at(hay, needle, i)
}

/// The characters of a string slice, one by one.
pub fn str_to_chars(s: &str) -> (r: Vec<char>)
    ensures
        r@ == s@,
{
    let n: usize = s.unicode_len();
    let mut r: Vec<char> = Vec::new();
    let mut i: usize = 0;
    while i < n
        invariant
            n == s@.len(),
            i <= n,
            r@ == s@.subrange(0, i as int),
        decreases n - i,
    {
        let c = s.get_char(i);
        r.push(c);
        proof {
            assert(r@ =~= s@.subrange(0, i + 1));
        }
        i = i + 1;
    }
    proof {
        assert(r@ =~= s@);
    }
    r
}

/// Strips non-alphanumeric characters from both ends of a word.
pub fn trim_token_exec(t: &Vec<char>) -> (r: Vec<char>)
    ensures
        r@ == trim_token(t@),
{
    let n: usize = t.len();
    let mut a: usize = 0;
    proof {
        assert(t@.skip(0) =~= t@);
    }
    while a < n && !char_is_alnum(t[a])
        invariant
            n == t@.len(),
            a <= n,
            trim_start(t@) == trim_start(t@.skip(a as int)),
        decreases n - a,
    {
        proof {
            assert(t@.skip(a as int).len() > 0);
            assert(t@.skip(a as int)[0] == t@[a as int]);
            assert(t@.skip(a as int).drop_first() =~= t@.skip(a as int + 1));
        }
        a = a + 1;
    }
    proof {
        if a == n {
            assert(t@.skip(a as int) =~= Seq::<char>::empty());
        } else {
            assert(t@.skip(a as int)[0] == t@[a as int]);
        }
        assert(trim_start(t@) == t@.skip(a as int));
    }
    // Now trim the right end of t@.skip(a).
    let mut b: usize = n;
    proof {
        assert(t@.subrange(a as int, n as int) =~= t@.skip(a as int));
    }
    while b > a && !char_is_alnum(t[b - 1])
        invariant
            n == t@.len(),
            a <= b <= n,
            trim_start(t@) == t@.skip(a as int),
            trim_end(t@.skip(a as int)) == trim_end(t@.subrange(a as int, b as int)),
        decreases b,
    {
        proof {
            assert(t@.skip(a as int) =~= t@.subrange(a as int, n as int));
            let cur = t@.subrange(a as int, b as int);
            assert(cur.len() > 0);
            assert(cur[cur.len() - 1] == t@[b - 1]);
            assert(cur.drop_last() =~= t@.subrange(a as int, b as int - 1));
        }
        b = b - 1;
    }
    proof {
        assert(t@.skip(a as int) =~= t@.subrange(a as int, n as int));
        let cur = t@.subrange(a as int, b as int);
        if b == a {
            assert(cur =~= Seq::<char>::empty());
        } else {
            assert(cur[cur.len() - 1] == t@[b - 1]);
        }
        assert(trim_end(cur) == cur);
        assert(trim_token(t@) == t@.subrange(a as int, b as int));
    }
    let mut r: Vec<char> = Vec::new();
    let mut k: usize = a;
    while k < b
        invariant
            a <= k <= b <= n,
            n == t@.len(),
            r@ == t@.subrange(a as int, k as int),
        decreases b - k,
    {
        r.push(t[k]);
        proof {
            assert(r@ =~= t@.subrange(a as int, k + 1));
        }
        k = k + 1;
    }
    r
}

/// Strips whitespace from both ends of a piece of text.
pub fn ws_trim_exec(t: &Vec<char>) -> (r: Vec<char>)
    ensures
        r@ == ws_trimmed(t@),
{
    let n: usize = t.len();
    let mut a: usize = 0;
    proof {
        assert(t@.skip(0) =~= t@);
    }
    while a < n && char_is_wspace(t[a])
        invariant
            n == t@.len(),
            a <= n,
            ws_trim_start(t@) == ws_trim_start(t@.skip(a as int)),
        decreases n - a,
    {
        proof {
            assert(t@.skip(a as int).len() > 0);
            assert(t@.skip(a as int)[0] == t@[a as int]);
            assert(t@.skip(a as int).drop_first() =~= t@.skip(a as int + 1));
        }
        a = a + 1;
    }
    proof {
        if a == n {
            assert(t@.skip(a as int) =~= Seq::<char>::empty());
        } else {
            assert(t@.skip(a as int)[0] == t@[a as int]);
        }
        assert(ws_trim_start(t@) == t@.skip(a as int));
    }
    let mut b: usize = n;
    proof {
        assert(t@.subrange(a as int, n as int) =~= t@.skip(a as int));
    }
    while b > a && char_is_wspace(t[b - 1])
        invariant
            n == t@.len(),
            a <= b <= n,
            ws_trim_start(t@) == t@.skip(a as int),
            ws_trim_end(t@.skip(a as int)) == ws_trim_end(t@.subrange(a as int, b as int)),
        decreases b,
    {
        proof {
            assert(t@.skip(a as int) =~= t@.subrange(a as int, n as int));
            let cur = t@.subrange(a as int, b as int);
            assert(cur.len() > 0);
            assert(cur[cur.len() - 1] == t@[b - 1]);
            assert(cur.drop_last() =~= t@.subrange(a as int, b as int - 1));
        }
        b = b - 1;
    }
    proof {
        assert(t@.skip(a as int) =~= t@.subrange(a as int, n as int));
        let cur = t@.subrange(a as int, b as int);
        if b == a {
            assert(cur =~= Seq::<char>::empty());
        } else {
            assert(cur[cur.len() - 1] == t@[b - 1]);
        }
        assert(ws_trim_end(cur) == cur);
        assert(ws_trimmed(t@) == t@.subrange(a as int, b as int));
    }
    let mut r: Vec<char> = Vec::new();
    let mut k: usize = a;
    while k < b
        invariant
            a <= k <= b <= n,
            n == t@.len(),
            r@ == t@.subrange(a as int, k as int),
        decreases b - k,
    {
        r.push(t[k]);
        proof {
            assert(r@ =~= t@.subrange(a as int, k + 1));
        }
        k = k + 1;
    }
    r
}

/// Splits lowercased text into its index tokens.
pub fn tokenize(text: &str) -> (r: Vec<Vec<char>>)
    ensures
        r.deep_view() == tokens_of(text@),
{
    let n: usize = text.unicode_len();
    let mut toks: Vec<Vec<char>> = Vec::new();
    let mut cur: Vec<char> = Vec::new();
    let mut i: usize = 0;
    proof {
        assert(toks.deep_view() =~~= Seq::<Seq<char>>::empty());
        assert(toks.deep_view() + tokenize_from(text@, 0, cur@) =~~= tokenize_from(
            text@,
            0,
            cur@,
        ));
    }
    while i < n
        invariant
            n == text@.len(),
            i <= n,
            tokens_of(text@) == toks.deep_view() + tokenize_from(text@, i as nat, cur@),
        decreases n - i,
    {
        let c = text.get_char(i);
        if char_is_wspace(c) {
            let ghost prev_dv = toks.deep_view();
            let ghost prev_cur = cur@;
            let trimmed = trim_token_exec(&cur);
            if trimmed.len() > 0 {
                toks.push(trimmed);
                proof {
                    assert(toks.deep_view() =~~= prev_dv + flush_token(prev_cur));
                }
            } else {
                proof {
                    assert(toks.deep_view() =~~= prev_dv + flush_token(prev_cur));
                }
            }
            cur = Vec::new();
            proof {
                assert(tokenize_from(text@, i as nat, prev_cur) == flush_token(prev_cur)
                    + tokenize_from(text@, (i + 1) as nat, cur@));
                assert(toks.deep_view() + tokenize_from(text@, (i + 1) as nat, cur@) =~~= prev_dv
                    + tokenize_from(text@, i as nat, prev_cur));
            }
        } else {
            cur.push(c);
        }
        i = i + 1;
    }
    let ghost prev_dv = toks.deep_view();
    let ghost prev_cur = cur@;
    let trimmed = trim_token_exec(&cur);
    if trimmed.len() > 0 {
        toks.push(trimmed);
    }
    proof {
        assert(toks.deep_view() =~~= prev_dv + flush_token(prev_cur));
        assert(tokenize_from(text@, i as nat, prev_cur) == flush_token(prev_cur));
        assert(toks.deep_view() =~~= tokens_of(text@));
    }
    toks
}

/// Whether the needle occurs anywhere in the haystack.
pub fn contains_chars(hay: &Vec<char>, needle: &Vec<char>) -> (r: bool)
    ensures
        r == seq_contains(hay@, needle@),
{
    let hn: usize = hay.len();
    let nn: usize = needle.len();
    if nn == 0 {
        proof {
            assert(hay@.subrange(0, 0) =~= needle@);
            assert(contains_at(hay@, needle@, 0));
        }
        return true;
    }
    if nn > hn {
        proof {
            assert(forall|i: int| !contains_at(hay@, needle@, i));
        }
        return false;
    }
    let last: usize = hn - nn;
    let mut i: usize = 0;
    while i <= last
        invariant
            hn == hay@.len(),
            nn == needle@.len(),
            1 <= nn <= hn,
            last == hn - nn,
            i <= last + 1,
            forall|k: int| 0 <= k < i ==> !contains_at(hay@, needle@, k),
        decreases last + 1 - i,
    {
        let mut j: usize = 0;
        let mut matches: bool = true;
        while j < nn
            invariant
                hn == hay@.len(),
                nn == needle@.len(),
                i + nn <= hn,
                j <= nn,
                matches ==> forall|k: int| 0 <= k < j ==> hay@[i + k] == needle@[k],
                !matches ==> !contains_at(hay@, needle@, i as int),
            decreases nn - j,
        {
            if hay[i + j] != needle[j] {
                matches = false;
                proof {
                    assert(hay@.subrange(i as int, i + nn) != needle@) by {
                        assert(hay@.subrange(i as int, i + nn)[j as int] == hay@[i + j]);
                    };
                }
                j = nn;
            } else {
                j = j + 1;
            }
        }
        if matches {
            proof {
                assert(hay@.subrange(i as int, i + nn) =~= needle@);
                assert(contains_at(hay@, needle@, i as int));
            }
            return true;
        }
        i = i + 1;
    }
    proof {
        assert(forall|k: int| 0 <= k < i ==> !contains_at(hay@, needle@, k));
        assert(forall|k: int| i <= k ==> !contains_at(hay@, needle@, k));
    }
    false
}

/// Relies on `String::push`: appends exactly one character.
#[verifier::external_body]
pub(crate) fn push_char(s: &mut String, c: char)
    ensures
        final(s)@ == old(s)@ + seq![c],
{
    s.push(c);
}

/// An owned string holding exactly these characters.
pub fn chars_to_string(v: &Vec<char>) -> (r: String)
    ensures
        r@ == v@,
{
    let n: usize = v.len();
    let mut r = String::new();
    let mut i: usize = 0;
    while i < n
        invariant
            n == v@.len(),
            i <= n,
            r@ == v@.subrange(0, i as int),
        decreases n - i,
    {
        push_char(&mut r, v[i]);
        proof {
            assert(r@ =~= v@.subrange(0, i + 1));
        }
        i = i + 1;
    }
    proof {
        assert(r@ =~= v@);
    }
    r
}

/// A copy of a character sequence.
pub fn copy_chars(v: &Vec<char>) -> (r: Vec<char>)
    ensures
        r@ == v@,
{
    let n: usize = v.len();
    let mut r: Vec<char> = Vec::new();
    let mut i: usize = 0;
    while i < n
        invariant
            n == v@.len(),
            i <= n,
            r@ == v@.subrange(0, i as int),
        decreases n - i,
    {
        r.push(v[i]);
        proof {
            assert(r@ =~= v@.subrange(0, i + 1));
        }
        i = i + 1;
    }
    proof {
        assert(r@ =~= v@);
    }
    r
}

/// Whether two character sequences are equal.
pub fn chars_eq(a: &Vec<char>, b: &Vec<char>) -> (r: bool)
    ensures
        r == (a@ == b@),
{
    if a.len() != b.len() {
        return false;
    }
    let n: usize = a.len();
    let mut i: usize = 0;
    while i < n
        invariant
            n == a@.len() == b@.len(),
            i <= n,
            forall|k: int| 0 <= k < i ==> a@[k] == b@[k],
        decreases n - i,
    {
        if a[i] != b[i] {
            return false;
        }
        i = i + 1;
    }
    proof {
        assert(a@ =~= b@);
    }
    true
}

} // verus!
