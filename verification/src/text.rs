//! Character-level helpers shared by the request parser and the responses:
//! line and word splitting, trimming, and decimal numbers.

use vstd::prelude::*;
use vstd::utf8::*;

verus! {

/// Appends `c` to `s` with `String::push`.
///
/// Trusted: `String::push` appends the character to the end of the string.
#[verifier::external_body]
pub(crate) fn push_char(s: &mut String, c: char)
    ensures
        final(s)@ == old(s)@.push(c),
{
    s.push(c);
}

/// The characters of `s`, in order.
pub fn chars_of(s: &str) -> (v: Vec<char>)
    ensures
        v@ == s@,
{
    let mut v: Vec<char> = Vec::new();
    for c in it: s.chars()
        invariant
            v@ == it.seq().take(it.index() as int),
    {
        v.push(c);
    }
    v
}

/// A `String` holding the characters of `s`.
pub fn string_of(s: &[char]) -> (r: String)
    ensures
        r@ == s@,
{
    let mut r = String::new();
    let mut i: usize = 0;
    while i < s.len()
        invariant
            i <= s@.len(),
            r@ == s@.take(i as int),
        decreases s@.len() - i,
    {
        push_char(&mut r, s[i]);
        assert(s@.take(i + 1) =~= s@.take(i as int).push(s@[i as int]));
        i = i + 1;
    }
    assert(s@.take(s@.len() as int) =~= s@);
    r
}

/// A copy of `s[lo..hi]`.
pub fn sub_chars(s: &[char], lo: usize, hi: usize) -> (r: Vec<char>)
    requires
        lo <= hi <= s@.len(),
    ensures
        r@ == s@.subrange(lo as int, hi as int),
{
    vstd::slice::slice_to_vec(vstd::slice::slice_subrange(s, lo, hi))
}

// ---------------------------------------------------------------------------
// Whitespace

/// Unicode `White_Space`, the property that `char::is_whitespace` tests.
pub open spec fn is_space(c: char) -> bool {
    let u = c as u32;
    ||| 9 <= u <= 13
    ||| u == 32
    ||| u == 0x85
    ||| u == 0xA0
    ||| u == 0x1680
    ||| 0x2000 <= u <= 0x200A
    ||| u == 0x2028
    ||| u == 0x2029
    ||| u == 0x202F
    ||| u == 0x205F
    ||| u == 0x3000
}

pub fn is_space_exec(c: char) -> (b: bool)
    ensures
        b == is_space(c),
{
    let u = c as u32;
    (9 <= u && u <= 13) || u == 32 || u == 0x85 || u == 0xA0 || u == 0x1680 || (0x2000 <= u && u
        <= 0x200A) || u == 0x2028 || u == 0x2029 || u == 0x202F || u == 0x205F || u == 0x3000
}

/// The index of the first character at or after `i` that is not whitespace
/// (`s.len()` when there is none).
pub open spec fn skip_spaces(s: Seq<char>, i: int) -> int
    decreases s.len() - i,
{
    if i < 0 || i >= s.len() || !is_space(s[i]) {
        i
    } else {
        skip_spaces(s, i + 1)
    }
}

/// The end of the word that starts at `i`: the first whitespace character at
/// or after `i` (`s.len()` when there is none).
pub open spec fn word_end(s: Seq<char>, i: int) -> int
    decreases s.len() - i,
{
    if i < 0 || i >= s.len() || is_space(s[i]) {
        i
    } else {
        word_end(s, i + 1)
    }
}

/// The index just past the last non-whitespace character before `j`
/// (`0` when there is none).
pub open spec fn back_spaces(s: Seq<char>, j: int) -> int
    decreases j,
{
    if j <= 0 || j > s.len() || !is_space(s[j - 1]) {
        j
    } else {
        back_spaces(s, j - 1)
    }
}

pub proof fn lemma_word_end(s: Seq<char>, i: int)
    requires
        0 <= i <= s.len(),
    ensures
        i <= word_end(s, i) <= s.len(),
        forall|k: int| i <= k < word_end(s, i) ==> !is_space(#[trigger] s[k]),
        word_end(s, i) < s.len() ==> is_space(s[word_end(s, i)]),
    decreases s.len() - i,
{
    if i < s.len() && !is_space(s[i]) {
        lemma_word_end(s, i + 1);
    }
}

/// `s` without its leading and trailing whitespace, as `str::trim` gives it.
pub open spec fn trim(s: Seq<char>) -> Seq<char> {
    let a = skip_spaces(s, 0);
    let b = back_spaces(s, s.len() as int);
    if b <= a {
        Seq::empty()
    } else {
        s.subrange(a, b)
    }
}

/// The whitespace-separated words of `s` from index `i` on, as
/// `str::split_whitespace` yields them.
pub open spec fn words_from(s: Seq<char>, i: int) -> Seq<Seq<char>>
    decreases s.len() - i,
{
    if i < 0 || i >= s.len() {
        Seq::empty()
    } else if is_space(s[i]) {
        words_from(s, i + 1)
    } else {
        let e = word_end(s, i);
        proof {
            lemma_word_end(s, i);
        }
        if e <= i {
            Seq::empty()
        } else {
            seq![s.subrange(i, e)] + words_from(s, e)
        }
    }
}

/// The whitespace-separated words of `s`.
pub open spec fn words(s: Seq<char>) -> Seq<Seq<char>> {
    words_from(s, 0)
}

proof fn lemma_word_end_at(s: Seq<char>, i: int, j: int)
    requires
        0 <= i <= j <= s.len(),
        forall|k: int| i <= k < j ==> !is_space(#[trigger] s[k]),
        j == s.len() || is_space(s[j]),
    ensures
        word_end(s, i) == j,
    decreases j - i,
{
    if i < j {
        lemma_word_end_at(s, i + 1, j);
    }
}

/// No character of `w` is whitespace.
pub open spec fn no_space(w: Seq<char>) -> bool {
    forall|k: int| 0 <= k < w.len() ==> !is_space(#[trigger] w[k])
}

proof fn lemma_words_from_word(s: Seq<char>, i: int, w: Seq<char>)
    requires
        0 <= i,
        i + w.len() <= s.len(),
        w.len() > 0,
        no_space(w),
        s.subrange(i, i + w.len()) == w,
        i + w.len() == s.len() || is_space(s[i + w.len()]),
    ensures
        words_from(s, i) == seq![w] + words_from(s, i + w.len()),
{
    assert forall|k: int| i <= k < i + w.len() implies !is_space(#[trigger] s[k]) by {
        assert(s[k] == w[k - i]);
    }
    lemma_word_end_at(s, i, i + w.len());
    assert(s[i] == w[0]);
}

/// Law: three words without whitespace, joined by single spaces, split back
/// into those three words (a request line `method path version`).
pub proof fn lemma_three_words(a: Seq<char>, b: Seq<char>, c: Seq<char>)
    requires
        a.len() > 0 && b.len() > 0 && c.len() > 0,
        no_space(a) && no_space(b) && no_space(c),
    ensures
        words(a + seq![' '] + b + seq![' '] + c) == seq![a, b, c],
{
    let s = a + seq![' '] + b + seq![' '] + c;
    let la = a.len() as int;
    let lb = b.len() as int;
    let lc = c.len() as int;
    assert(s.subrange(0, la) =~= a);
    assert(s[la] == ' ');
    lemma_words_from_word(s, 0, a);
    assert(s.subrange(la + 1, la + 1 + lb) =~= b);
    assert(s[la + 1 + lb] == ' ');
    assert(words_from(s, la) == words_from(s, la + 1));
    lemma_words_from_word(s, la + 1, b);
    assert(s.subrange(la + lb + 2, la + lb + 2 + lc) =~= c);
    assert(words_from(s, la + 1 + lb) == words_from(s, la + lb + 2));
    lemma_words_from_word(s, la + lb + 2, c);
    assert(words_from(s, s.len() as int) == Seq::<Seq<char>>::empty());
    assert(seq![a] + (seq![b] + (seq![c] + Seq::<Seq<char>>::empty())) =~= seq![a, b, c]);
}

pub fn trim_exec(s: &[char]) -> (r: Vec<char>)
    ensures
        r@ == trim(s@),
{
    let mut a: usize = 0;
    while a < s.len() && is_space_exec(s[a])
        invariant
            a <= s@.len(),
            skip_spaces(s@, 0) == skip_spaces(s@, a as int),
        decreases s@.len() - a,
    {
        a = a + 1;
    }
    let mut b: usize = s.len();
    while b > 0 && is_space_exec(s[b - 1])
        invariant
            b <= s@.len(),
            back_spaces(s@, s@.len() as int) == back_spaces(s@, b as int),
        decreases b,
    {
        b = b - 1;
    }
    if b <= a {
        Vec::new()
    } else {
        sub_chars(s, a, b)
    }
}

/// The whitespace-separated words of `s`.
pub fn words_exec(s: &[char]) -> (r: Vec<Vec<char>>)
    ensures
        r@.map_values(|w: Vec<char>| w@) == words(s@),
{
    let mut r: Vec<Vec<char>> = Vec::new();
    let mut i: usize = 0;
    while i < s.len()
        invariant
            i <= s@.len(),
            words(s@) == r@.map_values(|w: Vec<char>| w@) + words_from(s@, i as int),
        decreases s@.len() - i,
    {
        if is_space_exec(s[i]) {
            i = i + 1;
        } else {
            let mut e: usize = i;
            while e < s.len() && !is_space_exec(s[e])
                invariant
                    i <= e <= s@.len(),
                    word_end(s@, i as int) == word_end(s@, e as int),
                decreases s@.len() - e,
            {
                e = e + 1;
            }
            proof {
                lemma_word_end(s@, i as int);
            }
            let ghost old_r = r@;
            let w = sub_chars(s, i, e);
            r.push(w);
            assert(r@.map_values(|w: Vec<char>| w@) =~= old_r.map_values(|w: Vec<char>| w@)
                + seq![s@.subrange(i as int, e as int)]);
            i = e;
        }
    }
    assert(r@.map_values(|w: Vec<char>| w@) + words_from(s@, i as int) =~= r@.map_values(
        |w: Vec<char>| w@,
    ));
    r
}


// ---------------------------------------------------------------------------
// Lines and separators

/// True when a `"\r\n"` pair starts at index `i` of `s`.
pub open spec fn crlf_at(s: Seq<char>, i: int) -> bool {
    0 <= i && i + 1 < s.len() && s[i] == '\r' && s[i + 1] == '\n'
}

/// The index of the first `"\r\n"` that starts at or after `i`.
pub open spec fn find_crlf(s: Seq<char>, i: int) -> Option<int>
    decreases s.len() - i,
{
    if i < 0 || i + 1 >= s.len() {
        None
    } else if crlf_at(s, i) {
        Some(i)
    } else {
        find_crlf(s, i + 1)
    }
}

pub proof fn lemma_find_crlf(s: Seq<char>, i: int)
    requires
        0 <= i,
    ensures
        find_crlf(s, i) matches Some(k) ==> i <= k && crlf_at(s, k) && forall|j: int|
            i <= j < k ==> !crlf_at(s, j),
        find_crlf(s, i) is None ==> forall|j: int| i <= j ==> !crlf_at(s, j),
    decreases s.len() - i,
{
    if i + 1 < s.len() && !crlf_at(s, i) {
        lemma_find_crlf(s, i + 1);
    }
}

/// The pieces of `s` from index `i` on, split at each `"\r\n"`, as
/// `str::split("\r\n")` yields them.
pub open spec fn lines_from(s: Seq<char>, i: int) -> Seq<Seq<char>>
    decreases s.len() - i,
{
    if i < 0 || i > s.len() {
        Seq::empty()
    } else {
        match find_crlf(s, i) {
            None => seq![s.subrange(i, s.len() as int)],
            Some(k) => {
                proof {
                    lemma_find_crlf(s, i);
                }
                if k < i {
                    Seq::empty()
                } else {
                    seq![s.subrange(i, k)] + lines_from(s, k + 2)
                }
            },
        }
    }
}

/// The pieces of `s` split at each `"\r\n"`.
pub open spec fn lines(s: Seq<char>) -> Seq<Seq<char>> {
    lines_from(s, 0)
}

/// The pieces of `s` split at each `"\r\n"`.
pub fn lines_exec(s: &[char]) -> (r: Vec<Vec<char>>)
    ensures
        r@.map_values(|w: Vec<char>| w@) == lines(s@),
{
    let mut r: Vec<Vec<char>> = Vec::new();
    let mut i: usize = 0;
    loop
        invariant
            i <= s@.len(),
            lines(s@) == r@.map_values(|w: Vec<char>| w@) + lines_from(s@, i as int),
        decreases s@.len() - i,
    {
        let ghost old_r = r@;
        let mut k: usize = i;
        while k < s.len() && k + 1 < s.len() && !(s[k] == '\r' && s[k + 1] == '\n')
            invariant
                i <= k <= s@.len(),
                find_crlf(s@, i as int) == find_crlf(s@, k as int),
            decreases s@.len() - k,
        {
            k = k + 1;
        }
        if k < s.len() && k + 1 < s.len() {
            let w = sub_chars(s, i, k);
            r.push(w);
            assert(r@.map_values(|w: Vec<char>| w@) =~= old_r.map_values(|w: Vec<char>| w@)
                + seq![s@.subrange(i as int, k as int)]);
            i = k + 2;
        } else {
            let w = sub_chars(s, i, s.len());
            r.push(w);
            assert(r@.map_values(|w: Vec<char>| w@) =~= old_r.map_values(|w: Vec<char>| w@)
                + seq![s@.subrange(i as int, s@.len() as int)]);
            return r;
        }
    }
}

/// The lines `ls`, each followed by `"\r\n"`.
pub open spec fn joined_lines(ls: Seq<Seq<char>>) -> Seq<char>
    decreases ls.len(),
{
    if ls.len() == 0 {
        Seq::empty()
    } else {
        joined_lines(ls.drop_last()) + ls.last() + seq!['\r', '\n']
    }
}

/// `s` holds no carriage return.
pub open spec fn no_cr(s: Seq<char>) -> bool {
    forall|k: int| 0 <= k < s.len() ==> s[k] != '\r'
}

proof fn lemma_joined_lines_front(ls: Seq<Seq<char>>)
    requires
        ls.len() > 0,
    ensures
        joined_lines(ls) == ls[0] + seq!['\r', '\n'] + joined_lines(ls.drop_first()),
    decreases ls.len(),
{
    if ls.len() == 1 {
        assert(ls.drop_last() =~= Seq::<Seq<char>>::empty());
        assert(ls.drop_first() =~= Seq::<Seq<char>>::empty());
        assert(joined_lines(ls) =~= ls[0] + seq!['\r', '\n'] + joined_lines(ls.drop_first()));
    } else {
        lemma_joined_lines_front(ls.drop_last());
        assert(ls.drop_first().drop_last() =~= ls.drop_last().drop_first());
        assert(ls.drop_first().last() == ls.last());
        assert(ls.drop_last()[0] == ls[0]);
        assert(joined_lines(ls) =~= ls[0] + seq!['\r', '\n'] + joined_lines(ls.drop_first()));
    }
}

/// Joining two runs of lines is joining each and concatenating.
pub proof fn lemma_joined_lines_concat(a: Seq<Seq<char>>, b: Seq<Seq<char>>)
    ensures
        joined_lines(a + b) == joined_lines(a) + joined_lines(b),
    decreases b.len(),
{
    if b.len() == 0 {
        assert(a + b =~= a);
        assert(joined_lines(a) + joined_lines(b) =~= joined_lines(a));
    } else {
        lemma_joined_lines_concat(a, b.drop_last());
        assert((a + b).drop_last() =~= a + b.drop_last());
        assert((a + b).last() == b.last());
        assert(joined_lines(a + b) =~= joined_lines(a) + joined_lines(b));
    }
}

proof fn lemma_find_crlf_at(s: Seq<char>, i: int, k: int)
    requires
        0 <= i <= k,
        forall|j: int| i <= j < k ==> s[j] != '\r',
        crlf_at(s, k),
    ensures
        find_crlf(s, i) == Some(k),
    decreases k - i,
{
    if i < k {
        lemma_find_crlf_at(s, i + 1, k);
    }
}

proof fn lemma_find_crlf_none(s: Seq<char>, i: int)
    requires
        0 <= i,
        forall|j: int| i <= j < s.len() ==> s[j] != '\r',
    ensures
        find_crlf(s, i) is None,
    decreases s.len() - i,
{
    if i + 1 < s.len() {
        lemma_find_crlf_none(s, i + 1);
    }
}

proof fn lemma_lines_from_joined(s: Seq<char>, i: int, ls: Seq<Seq<char>>, last: Seq<char>)
    requires
        0 <= i <= s.len(),
        s.skip(i) == joined_lines(ls) + last,
        forall|j: int| 0 <= j < ls.len() ==> no_cr(#[trigger] ls[j]),
        no_cr(last),
    ensures
        lines_from(s, i) == ls.push(last),
    decreases ls.len(),
{
    if ls.len() == 0 {
        assert(s.skip(i) =~= last);
        assert forall|j: int| i <= j < s.len() implies s[j] != '\r' by {
            assert(s[j] == s.skip(i)[j - i]);
        }
        lemma_find_crlf_none(s, i);
        assert(s.subrange(i, s.len() as int) =~= last);
        assert(ls.push(last) =~= seq![last]);
    } else {
        lemma_joined_lines_front(ls);
        let l0 = ls[0];
        let k = i + l0.len();
        let rest = joined_lines(ls.drop_first()) + last;
        assert(s.skip(i) =~= l0 + seq!['\r', '\n'] + rest);
        assert forall|j: int| i <= j < k implies s[j] != '\r' by {
            assert(s[j] == s.skip(i)[j - i]);
            assert(no_cr(ls[0]));
        }
        assert(s[k] == s.skip(i)[k - i]);
        assert(s[k + 1] == s.skip(i)[k + 1 - i]);
        lemma_find_crlf_at(s, i, k);
        assert(s.subrange(i, k) =~= l0);
        assert(s.skip(k + 2).len() == rest.len());
        assert forall|j: int| 0 <= j < rest.len() implies #[trigger] s.skip(k + 2)[j] == rest[j] by {
            assert(s.skip(k + 2)[j] == s[k + 2 + j]);
            assert(s[k + 2 + j] == s.skip(i)[k + 2 + j - i]);
            assert((l0 + seq!['\r', '\n'] + rest)[l0.len() + 2 + j] == rest[j]);
        }
        assert(s.skip(k + 2) =~= rest);
        assert forall|j: int| 0 <= j < ls.drop_first().len() implies no_cr(
            #[trigger] ls.drop_first()[j],
        ) by {
            assert(ls.drop_first()[j] == ls[j + 1]);
        }
        lemma_lines_from_joined(s, k + 2, ls.drop_first(), last);
        assert(seq![l0] + ls.drop_first().push(last) =~= ls.push(last));
    }
}

/// Law: lines without carriage returns, each ended by `"\r\n"`, and a last
/// piece without carriage returns split back into those lines and that
/// piece.
pub proof fn lemma_lines_of_joined(ls: Seq<Seq<char>>, last: Seq<char>)
    requires
        forall|j: int| 0 <= j < ls.len() ==> no_cr(#[trigger] ls[j]),
        no_cr(last),
    ensures
        lines(joined_lines(ls) + last) == ls.push(last),
{
    let s = joined_lines(ls) + last;
    assert(s.skip(0) =~= s);
    lemma_lines_from_joined(s, 0, ls, last);
}

/// The index of the first occurrence of `c` in `s` at or after `i`.
pub open spec fn find_char_from(s: Seq<char>, c: char, i: int) -> Option<int>
    decreases s.len() - i,
{
    if i < 0 || i >= s.len() {
        None
    } else if s[i] == c {
        Some(i)
    } else {
        find_char_from(s, c, i + 1)
    }
}

/// The index of the first occurrence of `c` in `s`.
pub open spec fn find_char(s: Seq<char>, c: char) -> Option<int> {
    find_char_from(s, c, 0)
}

pub proof fn lemma_find_char(s: Seq<char>, c: char, i: int)
    requires
        0 <= i,
    ensures
        find_char_from(s, c, i) matches Some(k) ==> i <= k < s.len() && s[k] == c && forall|j: int|
            i <= j < k ==> s[j] != c,
        find_char_from(s, c, i) is None ==> forall|j: int| i <= j < s.len() ==> s[j] != c,
    decreases s.len() - i,
{
    if i < s.len() && s[i] != c {
        lemma_find_char(s, c, i + 1);
    }
}

pub fn find_char_exec(s: &[char], c: char) -> (r: Option<usize>)
    ensures
        r matches Some(i) ==> find_char(s@, c) == Some(i as int) && i < s@.len(),
        r is None ==> find_char(s@, c) is None,
{
    let mut i: usize = 0;
    while i < s.len()
        invariant
            i <= s@.len(),
            find_char(s@, c) == find_char_from(s@, c, i as int),
        decreases s@.len() - i,
    {
        if s[i] == c {
            return Some(i);
        }
        i = i + 1;
    }
    None
}

/// The pieces of `s` from index `i` on, split at each `c`, as
/// `str::split(c)` yields them.
pub open spec fn split_from(s: Seq<char>, c: char, i: int) -> Seq<Seq<char>>
    decreases s.len() - i,
{
    if i < 0 || i > s.len() {
        Seq::empty()
    } else {
        match find_char_from(s, c, i) {
            None => seq![s.subrange(i, s.len() as int)],
            Some(k) => {
                proof {
                    lemma_find_char(s, c, i);
                }
                if k < i {
                    Seq::empty()
                } else {
                    seq![s.subrange(i, k)] + split_from(s, c, k + 1)
                }
            },
        }
    }
}

/// The pieces of `s` split at each `c`.
pub open spec fn split(s: Seq<char>, c: char) -> Seq<Seq<char>> {
    split_from(s, c, 0)
}

/// Law: two pieces without `c`, joined by one `c`, split back into the two
/// pieces.
pub proof fn lemma_split_two(a: Seq<char>, b: Seq<char>, c: char)
    requires
        forall|i: int| 0 <= i < a.len() ==> a[i] != c,
        forall|i: int| 0 <= i < b.len() ==> b[i] != c,
    ensures
        split(a + seq![c] + b, c) == seq![a, b],
{
    let s = a + seq![c] + b;
    let n = a.len() as int;
    assert(s[n] == c);
    assert forall|j: int| 0 <= j < n implies s[j] != c by {
        assert(s[j] == a[j]);
    }
    assert forall|j: int| n + 1 <= j < s.len() implies s[j] != c by {
        assert(s[j] == b[j - n - 1]);
    }
    lemma_find_char(s, c, 0);
    lemma_find_char(s, c, n + 1);
    assert(find_char_from(s, c, 0) == Some(n));
    assert(find_char_from(s, c, n + 1) is None);
    assert(split_from(s, c, n + 1) == seq![s.subrange(n + 1, s.len() as int)]);
    assert(s.subrange(n + 1, s.len() as int) =~= b);
    assert(s.subrange(0, n) =~= a);
    assert(split_from(s, c, 0) == seq![s.subrange(0, n)] + split_from(s, c, n + 1));
    assert(split(s, c) =~= seq![a, b]);
}

/// The pieces of `s` split at each `c`.
pub fn split_exec(s: &[char], c: char) -> (r: Vec<Vec<char>>)
    ensures
        r@.map_values(|w: Vec<char>| w@) == split(s@, c),
{
    let mut r: Vec<Vec<char>> = Vec::new();
    let mut i: usize = 0;
    loop
        invariant
            i <= s@.len(),
            split(s@, c) == r@.map_values(|w: Vec<char>| w@) + split_from(s@, c, i as int),
        decreases s@.len() - i,
    {
        let ghost old_r = r@;
        let mut k: usize = i;
        while k < s.len() && s[k] != c
            invariant
                i <= k <= s@.len(),
                find_char_from(s@, c, i as int) == find_char_from(s@, c, k as int),
            decreases s@.len() - k,
        {
            k = k + 1;
        }
        if k < s.len() {
            let w = sub_chars(s, i, k);
            r.push(w);
            assert(r@.map_values(|w: Vec<char>| w@) =~= old_r.map_values(|w: Vec<char>| w@)
                + seq![s@.subrange(i as int, k as int)]);
            i = k + 1;
        } else {
            let w = sub_chars(s, i, s.len());
            r.push(w);
            assert(r@.map_values(|w: Vec<char>| w@) =~= old_r.map_values(|w: Vec<char>| w@)
                + seq![s@.subrange(i as int, s@.len() as int)]);
            return r;
        }
    }
}

/// The index of the first character at or after `i` that is not `c`.
pub open spec fn skip_char(s: Seq<char>, c: char, i: int) -> int
    decreases s.len() - i,
{
    if i < 0 || i >= s.len() || s[i] != c {
        i
    } else {
        skip_char(s, c, i + 1)
    }
}

/// The index just past the last character before `j` that is not `c`.
pub open spec fn back_char(s: Seq<char>, c: char, j: int) -> int
    decreases j,
{
    if j <= 0 || j > s.len() || s[j - 1] != c {
        j
    } else {
        back_char(s, c, j - 1)
    }
}

/// `s` without the copies of `c` at its start and its end, as
/// `str::trim_matches(c)` gives it.
pub open spec fn trim_char(s: Seq<char>, c: char) -> Seq<char> {
    let a = skip_char(s, c, 0);
    let b = back_char(s, c, s.len() as int);
    if b <= a {
        Seq::empty()
    } else {
        s.subrange(a, b)
    }
}

pub fn trim_char_exec(s: &[char], c: char) -> (r: Vec<char>)
    ensures
        r@ == trim_char(s@, c),
{
    let mut a: usize = 0;
    while a < s.len() && s[a] == c
        invariant
            a <= s@.len(),
            skip_char(s@, c, 0) == skip_char(s@, c, a as int),
        decreases s@.len() - a,
    {
        a = a + 1;
    }
    let mut b: usize = s.len();
    while b > 0 && s[b - 1] == c
        invariant
            b <= s@.len(),
            back_char(s@, c, s@.len() as int) == back_char(s@, c, b as int),
        decreases b,
    {
        b = b - 1;
    }
    if b <= a {
        Vec::new()
    } else {
        sub_chars(s, a, b)
    }
}

/// Whether `a` and `b` hold the same characters.
pub fn chars_eq(a: &[char], b: &[char]) -> (r: bool)
    ensures
        r == (a@ == b@),
{
    if a.len() != b.len() {
        return false;
    }
    let mut i: usize = 0;
    while i < a.len()
        invariant
            i <= a@.len(),
            a@.len() == b@.len(),
            forall|j: int| 0 <= j < i ==> a@[j] == b@[j],
        decreases a@.len() - i,
    {
        if a[i] != b[i] {
            return false;
        }
        i = i + 1;
    }
    assert(a@ =~= b@);
    true
}

// ---------------------------------------------------------------------------
// Decimal numbers

pub open spec fn is_digit(c: char) -> bool {
    '0' <= c <= '9'
}

pub open spec fn digit_value(c: char) -> nat {
    (c as u32 - '0' as u32) as nat
}

/// The number that the decimal digits `s` spell (most significant first).
pub open spec fn digits_value(s: Seq<char>) -> nat
    decreases s.len(),
{
    if s.len() == 0 {
        0
    } else {
        digits_value(s.drop_last()) * 10 + digit_value(s.last())
    }
}

pub open spec fn all_digits(s: Seq<char>) -> bool {
    forall|i: int| 0 <= i < s.len() ==> is_digit(#[trigger] s[i])
}

/// An unsigned decimal number as `u32::from_str` and `usize::from_str`
/// read it, with `max` the largest value of the type: an optional `+`, then
/// one or more ASCII digits, no other character, and at most `max`.
pub open spec fn parse_unsigned(s: Seq<char>, max: nat) -> Option<nat> {
    let d = if s.len() > 0 && s[0] == '+' {
        s.drop_first()
    } else {
        s
    };
    if d.len() > 0 && all_digits(d) && digits_value(d) <= max {
        Some(digits_value(d))
    } else {
        None
    }
}

proof fn lemma_digits_value_monotone(s: Seq<char>, i: int)
    requires
        0 <= i <= s.len(),
    ensures
        digits_value(s.take(i)) <= digits_value(s),
    decreases s.len() - i,
{
    if i < s.len() {
        lemma_digits_value_monotone(s, i + 1);
        let t = s.take(i + 1);
        assert(t.drop_last() =~= s.take(i));
        assert(digits_value(t) == digits_value(s.take(i)) * 10 + digit_value(t.last()));
        assert(digits_value(s.take(i)) <= digits_value(s.take(i)) * 10) by (nonlinear_arith);
    } else {
        assert(s.take(i) =~= s);
    }
}

/// Reads an unsigned decimal number no larger than `max` (see
/// `parse_unsigned`).
pub fn parse_unsigned_exec(s: &[char], max: u64) -> (r: Option<u64>)
    ensures
        r matches Some(v) ==> parse_unsigned(s@, max as nat) == Some(v as nat),
        r is None ==> parse_unsigned(s@, max as nat) is None,
{
    let start: usize = if s.len() > 0 && s[0] == '+' {
        1
    } else {
        0
    };
    let ghost d = if s@.len() > 0 && s@[0] == '+' {
        s@.drop_first()
    } else {
        s@
    };
    assert(d =~= s@.skip(start as int));
    if start >= s.len() {
        return None;
    }
    let mut v: u64 = 0;
    let mut i: usize = start;
    while i < s.len()
        invariant
            start <= i <= s@.len(),
            d =~= s@.skip(start as int),
            d == (if s@.len() > 0 && s@[0] == '+' {
                s@.drop_first()
            } else {
                s@
            }),
            all_digits(d.take(i - start)),
            v as nat == digits_value(d.take(i - start)),
            v <= max,
        decreases s@.len() - i,
    {
        let c = s[i];
        if !('0' <= c && c <= '9') {
            assert(d[i - start] == c);
            assert(!is_digit(d[i - start]));
            return None;
        }
        let dv: u64 = (c as u32 - '0' as u32) as u64;
        let ghost t = d.take(i - start + 1);
        assert(t.drop_last() =~= d.take(i - start));
        assert(t.last() == c);
        if dv > max || v > (max - dv) / 10 {
            proof {
                assert(v * 10 + dv > max) by (nonlinear_arith)
                    requires
                        dv > max || v > (max - dv) / 10,
                        dv <= 9,
                ;
                lemma_digits_value_monotone(d, i - start + 1);
            }
            return None;
        }
        proof {
            assert(v * 10 + dv <= max) by (nonlinear_arith)
                requires
                    v <= (max - dv) / 10,
                    dv <= max,
            ;
        }
        v = v * 10 + dv;
        i = i + 1;
        assert(all_digits(t));
    }
    assert(d.take(i - start) =~= d);
    Some(v)
}

pub open spec fn digit_char(d: nat) -> char {
    ('0' as u32 + d) as char
}

/// The decimal representation of `n`, as `to_string` gives it for an
/// unsigned integer.
pub open spec fn decimal(n: nat) -> Seq<char>
    decreases n,
{
    if n < 10 {
        seq![digit_char(n)]
    } else {
        decimal(n / 10).push(digit_char(n % 10))
    }
}

proof fn lemma_digit_char(d: nat)
    requires
        d < 10,
    ensures
        is_digit(digit_char(d)),
        digit_value(digit_char(d)) == d,
{
    assert(('0' as u32 + d) as u32 == 48 + d);
}

/// The digits of `decimal(n)` spell `n`.
pub proof fn lemma_decimal_digits(n: nat)
    ensures
        decimal(n).len() > 0,
        all_digits(decimal(n)),
        digits_value(decimal(n)) == n,
    decreases n,
{
    lemma_digit_char(n % 10);
    if n < 10 {
        let s = decimal(n);
        assert(s.drop_last() =~= Seq::<char>::empty());
        assert(digits_value(s.drop_last()) == 0);
        assert(s.last() == digit_char(n % 10));
        assert(digits_value(s) == digits_value(s.drop_last()) * 10 + digit_value(s.last()));
    } else {
        lemma_decimal_digits(n / 10);
        let s = decimal(n);
        assert(s.drop_last() =~= decimal(n / 10));
        assert(n == (n / 10) * 10 + n % 10) by (nonlinear_arith);
        assert(s.last() == digit_char(n % 10));
        assert(digits_value(s) == digits_value(decimal(n / 10)) * 10 + digit_value(s.last()));
        assert forall|i: int| 0 <= i < s.len() implies is_digit(#[trigger] s[i]) by {
            if i < s.len() - 1 {
                assert(s[i] == decimal(n / 10)[i]);
            }
        }
    }
}

/// Law: reading back the decimal representation of a number no larger than
/// `max` gives the number (so a `Content-Length` that a response writes
/// reads back as the body length).
pub proof fn lemma_decimal_parses(n: nat, max: nat)
    requires
        n <= max,
    ensures
        parse_unsigned(decimal(n), max) == Some(n),
{
    lemma_decimal_digits(n);
    assert(is_digit(decimal(n)[0]));
}

/// Appends the decimal representation of `n` to `s`.
pub fn push_decimal(s: &mut String, n: u64)
    ensures
        final(s)@ == old(s)@ + decimal(n as nat),
    decreases n,
{
    if n >= 10 {
        push_decimal(s, n / 10);
    }
    let c = char_from_digit((n % 10) as u32);
    push_char(s, c);
    assert(decimal(n as nat) == if n < 10 {
        seq![digit_char(n as nat)]
    } else {
        decimal((n / 10) as nat).push(digit_char((n % 10) as nat))
    });
}

fn char_from_digit(d: u32) -> (c: char)
    requires
        d < 10,
    ensures
        c == digit_char(d as nat),
{
    if d == 0 { '0' } else if d == 1 { '1' } else if d == 2 { '2' } else if d == 3 { '3' }
    else if d == 4 { '4' } else if d == 5 { '5' } else if d == 6 { '6' } else if d == 7 { '7' }
    else if d == 8 { '8' } else { '9' }
}

// ---------------------------------------------------------------------------
// UTF-8 lengths

/// The number of bytes of the UTF-8 encoding of `c`.
pub open spec fn utf8_width(c: char) -> nat {
    encode_scalar(c as u32).len()
}

/// The number of bytes of the UTF-8 encoding of `s`.
pub open spec fn byte_len(s: Seq<char>) -> nat
    decreases s.len(),
{
    if s.len() == 0 {
        0
    } else {
        byte_len(s.drop_last()) + utf8_width(s.last())
    }
}

pub fn utf8_width_exec(c: char) -> (w: usize)
    ensures
        w == utf8_width(c),
        1 <= w <= 4,
{
    proof {
        broadcast use vstd::utf8::char_is_scalar;
        assert(is_scalar(c as u32));
    }
    let u = c as u32;
    if u <= 0x7F {
        1
    } else if u <= 0x7FF {
        2
    } else if u <= 0xFFFF {
        3
    } else {
        4
    }
}


pub proof fn lemma_utf8_width(c: char)
    ensures
        1 <= utf8_width(c) <= 4,
{
}

pub proof fn lemma_byte_len_step(s: Seq<char>, k: int)
    requires
        0 <= k < s.len(),
    ensures
        byte_len(s.take(k + 1)) == byte_len(s.take(k)) + utf8_width(s[k]),
{
    assert(s.take(k + 1).drop_last() =~= s.take(k));
}

/// Byte lengths of prefixes grow with every character.
pub proof fn lemma_byte_len_grows(s: Seq<char>, a: int, b: int)
    requires
        0 <= a <= b <= s.len(),
    ensures
        byte_len(s.take(a)) + (b - a) <= byte_len(s.take(b)),
    decreases b - a,
{
    if a < b {
        lemma_byte_len_grows(s, a, b - 1);
        lemma_byte_len_step(s, b - 1);
        lemma_utf8_width(s[b - 1]);
    }
}

/// Law: the first `n` bytes of a line of ASCII characters, at least `n`
/// long, are its first `n` characters.
pub proof fn lemma_ascii_byte_prefix(s: Seq<char>, n: nat)
    requires
        n <= s.len(),
        forall|i: int| 0 <= i < s.len() ==> (s[i] as u32) < 128,
    ensures
        is_boundary(s, n),
        byte_prefix(s, n) == s.take(n as int),
{
    assert forall|k: int| 0 <= k <= s.len() implies byte_len(#[trigger] s.take(k)) == k by {
        lemma_ascii_byte_len(s, k);
    }
    assert(byte_len(s.take(n as int)) == n);
    let k = choose|k: int| 0 <= k <= s.len() && byte_len(#[trigger] s.take(k)) == n;
    assert(byte_len(s.take(k)) == k);
}

proof fn lemma_ascii_byte_len(s: Seq<char>, k: int)
    requires
        0 <= k <= s.len(),
        forall|i: int| 0 <= i < s.len() ==> (s[i] as u32) < 128,
    ensures
        byte_len(s.take(k)) == k,
    decreases k,
{
    if k == 0 {
        assert(s.take(0) =~= Seq::<char>::empty());
    } else {
        lemma_ascii_byte_len(s, k - 1);
        lemma_byte_len_step(s, k - 1);
        assert((s[k - 1] as u32) < 128);
        assert(utf8_width(s[k - 1]) == 1);
    }
}

/// True when some prefix of `s` has UTF-8 length exactly `n`, i.e. `n` is a
/// character boundary of the encoding of `s`.
pub open spec fn is_boundary(s: Seq<char>, n: nat) -> bool {
    exists|k: int| 0 <= k <= s.len() && byte_len(#[trigger] s.take(k)) == n
}

/// The prefix of `s` whose UTF-8 encoding is `n` bytes long.
pub open spec fn byte_prefix(s: Seq<char>, n: nat) -> Seq<char> {
    s.take(choose|k: int| 0 <= k <= s.len() && byte_len(#[trigger] s.take(k)) == n)
}

/// The number of leading characters of `s` that make up its first `n` bytes.
pub fn byte_prefix_len(s: &[char], n: usize) -> (r: Option<usize>)
    ensures
        r is Some <==> is_boundary(s@, n as nat),
        r matches Some(k) ==> k <= s@.len() && byte_prefix(s@, n as nat) == s@.take(k as int),
{
    let mut acc: usize = 0;
    let mut k: usize = 0;
    assert(s@.take(0) =~= Seq::<char>::empty());
    while k < s.len() && acc < n
        invariant
            k <= s@.len(),
            acc == byte_len(s@.take(k as int)),
            acc <= n,
        decreases s@.len() - k,
    {
        let w = utf8_width_exec(s[k]);
        proof {
            lemma_byte_len_step(s@, k as int);
        }
        if w > n - acc {
            proof {
                assert forall|j: int| 0 <= j <= s@.len() implies byte_len(#[trigger] s@.take(j))
                    != n by {
                    if j <= k {
                        lemma_byte_len_grows(s@, j, k as int);
                    } else {
                        lemma_byte_len_grows(s@, k + 1, j);
                    }
                }
            }
            return None;
        }
        acc = acc + w;
        k = k + 1;
    }
    if acc == n {
        proof {
            let j = choose|j: int| 0 <= j <= s@.len() && byte_len(#[trigger] s@.take(j)) == n;
            if j < k {
                lemma_byte_len_grows(s@, j + 1, k as int);
                lemma_byte_len_step(s@, j);
                lemma_utf8_width(s@[j]);
            } else if j > k {
                lemma_byte_len_grows(s@, k + 1, j);
                lemma_byte_len_step(s@, k as int);
                lemma_utf8_width(s@[k as int]);
            }
        }
        Some(k)
    } else {
        proof {
            assert(k == s@.len());
            assert forall|j: int| 0 <= j <= s@.len() implies byte_len(#[trigger] s@.take(j)) != n by {
                lemma_byte_len_grows(s@, j, k as int);
            }
        }
        None
    }
}

} // verus!
