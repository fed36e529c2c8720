//! Searching and cutting text, as sequences of characters.
use vstd::prelude::*;
use vstd::slice::slice_subrange;
use vstd::utf8::{
    decode_utf8, encode_utf8, encode_utf8_decode_utf8, encode_utf8_valid_utf8, valid_utf8,
};

verus! {

/// `pat` stands in `s` at position `i`.
pub open spec fn occurs_at(s: Seq<char>, pat: Seq<char>, i: int) -> bool {
    &&& 0 <= i
    &&& i + pat.len() <= s.len()
    &&& s.subrange(i, i + pat.len()) == pat
}

/// `i` is the first position at which `pat` stands in `s`.
pub open spec fn is_first(s: Seq<char>, pat: Seq<char>, i: int) -> bool {
    &&& occurs_at(s, pat, i)
    &&& forall|j: int| 0 <= j < i ==> !occurs_at(s, pat, j)
}

/// Where `pat` first stands in `s`.
pub open spec fn find(s: Seq<char>, pat: Seq<char>) -> Option<int> {
    if exists|i: int| is_first(s, pat, i) {
        Some(choose|i: int| is_first(s, pat, i))
    } else {
        None
    }
}

/// `pat` stands somewhere in `s`.
pub open spec fn contains_text(s: Seq<char>, pat: Seq<char>) -> bool {
    exists|i: int| occurs_at(s, pat, i)
}

proof fn lemma_first_below(s: Seq<char>, pat: Seq<char>, i: int)
    requires
        occurs_at(s, pat, i),
    ensures
        exists|k: int| is_first(s, pat, k),
    decreases i,
{
    if exists|j: int| 0 <= j < i && occurs_at(s, pat, j) {
        let j = choose|j: int| 0 <= j < i && occurs_at(s, pat, j);
        lemma_first_below(s, pat, j);
    } else {
        assert(is_first(s, pat, i));
    }
}

/// What `find` answers: the first occurrence, and `None` exactly where there is none.
pub proof fn lemma_find(s: Seq<char>, pat: Seq<char>)
    ensures
        match find(s, pat) {
            Some(i) => is_first(s, pat, i),
            None => !contains_text(s, pat),
        },
{
    if contains_text(s, pat) {
        let i = choose|i: int| occurs_at(s, pat, i);
        lemma_first_below(s, pat, i);
    }
}

/// A position that is first is the one `find` answers.
pub proof fn lemma_find_is(s: Seq<char>, pat: Seq<char>, i: int)
    requires
        is_first(s, pat, i),
    ensures
        find(s, pat) == Some(i),
{
    lemma_find(s, pat);
    let k = find(s, pat)->0;
    assert(k == i) by {
        if k < i {
            assert(!occurs_at(s, pat, k));
        }
        if i < k {
            assert(!occurs_at(s, pat, i));
        }
    }
}

/// The characters of `s`, in order.
pub fn chars_of(s: &str) -> (r: Vec<char>)
    ensures
        r@ == s@,
{
    let mut out: Vec<char> = Vec::new();
    for c in it: s.chars()
        invariant
            it.seq() == s@,
            out@ == s@.take(it.index()),
    {
        assert(s@.take(it.index() + 1) =~= s@.take(it.index()).push(c));
        out.push(c);
    }
    assert(s@.take(s@.len() as int) =~= s@);
    out
}

/// `String::push` puts the character behind the text that is there.
pub assume_specification[ String::push ](s: &mut String, c: char)
    ensures
        final(s)@ == old(s)@.push(c),
;

/// The text made of these characters.
pub fn string_of(cs: &[char]) -> (r: String)
    ensures
        r@ == cs@,
{
    let mut out = String::new();
    let mut i: usize = 0;
    while i < cs.len()
        invariant
            i <= cs@.len(),
            out@ == cs@.take(i as int),
        decreases cs@.len() - i,
    {
        assert(cs@.take(i + 1) =~= cs@.take(i as int).push(cs@[i as int]));
        out.push(cs[i]);
        i += 1;
    }
    assert(cs@.take(i as int) =~= cs@);
    out
}

/// The part of `cs` from position `i` on.
pub fn slice_from<'a>(cs: &'a [char], i: usize) -> (r: &'a [char])
    requires
        i <= cs@.len(),
    ensures
        r@ == cs@.skip(i as int),
{
    assert(cs@.subrange(i as int, cs@.len() as int) =~= cs@.skip(i as int));
    slice_subrange(cs, i, cs.len())
}

/// The part of `cs` in front of position `i`.
pub fn slice_to<'a>(cs: &'a [char], i: usize) -> (r: &'a [char])
    requires
        i <= cs@.len(),
    ensures
        r@ == cs@.take(i as int),
{
    assert(cs@.subrange(0, i as int) =~= cs@.take(i as int));
    slice_subrange(cs, 0, i)
}

/// Whether `pat` stands in `hay` at position `at`.
pub fn stands_at(hay: &[char], pat: &[char], at: usize) -> (r: bool)
    requires
        at <= hay@.len(),
    ensures
        r == occurs_at(hay@, pat@, at as int),
{
    if pat.len() > hay.len() - at {
        return false;
    }
    let mut k: usize = 0;
    while k < pat.len()
        invariant
            at + pat.len() <= hay.len(),
            k <= pat@.len(),
            forall|m: int| 0 <= m < k ==> hay@[at + m] == pat@[m],
        decreases pat@.len() - k,
    {
        if hay[at + k] != pat[k] {
            assert(hay@.subrange(at as int, at + pat@.len())[k as int] != pat@[k as int]);
            return false;
        }
        k += 1;
    }
    assert(hay@.subrange(at as int, at + pat@.len()) =~= pat@);
    true
}

/// Where `pat` first stands in `hay`.
pub fn find_text(hay: &[char], pat: &[char]) -> (r: Option<usize>)
    ensures
        match r {
            Some(i) => find(hay@, pat@) == Some(i as int) && i + pat@.len() <= hay.len(),
            None => find(hay@, pat@) is None,
        },
{
    let mut i: usize = 0;
    loop
        invariant
            i <= hay@.len(),
            forall|j: int| 0 <= j < i ==> !occurs_at(hay@, pat@, j),
        decreases hay@.len() - i,
    {
        if stands_at(hay, pat, i) {
            proof {
                lemma_find_is(hay@, pat@, i as int);
            }
            return Some(i);
        }
        if i == hay.len() {
            proof {
                lemma_find(hay@, pat@);
            }
            return None;
        }
        i += 1;
    }
}

/// A one-character pattern stands exactly where the character does.
pub proof fn lemma_occurs_char(s: Seq<char>, c: char, i: int)
    ensures
        occurs_at(s, seq![c], i) <==> 0 <= i < s.len() && s[i] == c,
{
    if 0 <= i < s.len() {
        assert(s.subrange(i, i + 1)[0] == s[i]);
        if s[i] == c {
            assert(s.subrange(i, i + 1) =~= seq![c]);
        }
    }
}

/// What `find` answers for a single character.
pub proof fn lemma_find_char(s: Seq<char>, c: char)
    ensures
        match find(s, seq![c]) {
            Some(i) => 0 <= i < s.len() && s[i] == c && forall|j: int| 0 <= j < i ==> s[j] != c,
            None => !s.contains(c),
        },
{
    lemma_find(s, seq![c]);
    match find(s, seq![c]) {
        Some(i) => {
            lemma_occurs_char(s, c, i);
            assert forall|j: int| 0 <= j < i implies s[j] != c by {
                lemma_occurs_char(s, c, j);
            }
        },
        None => {
            if s.contains(c) {
                let j = s.index_of(c);
                lemma_occurs_char(s, c, j);
            }
        },
    }
}

/// The first position of a character is the one `find` answers.
pub proof fn lemma_find_char_is(s: Seq<char>, c: char, i: int)
    requires
        0 <= i < s.len(),
        s[i] == c,
        forall|j: int| 0 <= j < i ==> s[j] != c,
    ensures
        find(s, seq![c]) == Some(i),
{
    lemma_find_char(s, c);
}

/// Where the character first stands in `hay`.
pub fn find_char(hay: &[char], c: char) -> (r: Option<usize>)
    ensures
        match r {
            Some(i) => find(hay@, seq![c]) == Some(i as int) && i < hay.len(),
            None => find(hay@, seq![c]) is None,
        },
{
    let mut i: usize = 0;
    while i < hay.len()
        invariant
            i <= hay@.len(),
            forall|j: int| 0 <= j < i ==> hay@[j] != c,
        decreases hay@.len() - i,
    {
        if hay[i] == c {
            proof {
                lemma_find_char_is(hay@, c, i as int);
            }
            return Some(i);
        }
        i += 1;
    }
    proof {
        lemma_find_char(hay@, c);
    }
    None
}

/// Where the character last stands in `s`.
pub open spec fn rfind(s: Seq<char>, c: char) -> Option<int>
    decreases s.len(),
{
    if s.len() == 0 {
        None
    } else if s.last() == c {
        Some(s.len() - 1)
    } else {
        rfind(s.drop_last(), c)
    }
}

/// What `rfind` answers: the last occurrence, and `None` exactly where there is none.
pub proof fn lemma_rfind(s: Seq<char>, c: char)
    ensures
        match rfind(s, c) {
            Some(i) => 0 <= i < s.len() && s[i] == c && forall|j: int| i < j < s.len() ==> s[j] != c,
            None => !s.contains(c),
        },
    decreases s.len(),
{
    if s.len() > 0 && s.last() != c {
        lemma_rfind(s.drop_last(), c);
        assert forall|j: int| 0 <= j < s.len() - 1 implies s[j] == s.drop_last()[j] by {}
        if s.contains(c) {
            let j = s.index_of(c);
            assert(s.drop_last()[j] == c);
        }
    }
}

/// Where the character last stands in `hay`.
pub fn rfind_char(hay: &[char], c: char) -> (r: Option<usize>)
    ensures
        match r {
            Some(i) => rfind(hay@, c) == Some(i as int) && i < hay.len(),
            None => rfind(hay@, c) is None,
        },
{
    let mut i: usize = hay.len();
    assert(hay@.take(i as int) =~= hay@);
    while i > 0
        invariant
            i <= hay@.len(),
            rfind(hay@, c) == rfind(hay@.take(i as int), c),
        decreases i,
    {
        if hay[i - 1] == c {
            return Some(i - 1);
        }
        assert(hay@.take(i as int).drop_last() =~= hay@.take(i - 1));
        i -= 1;
    }
    None
}

/// A class of characters that are trimmed off the ends of a text.
#[derive(Clone, Copy, Debug, PartialEq, Eq, Structural)]
pub enum Trim {
    /// Unicode white space.
    White,
    /// The double quote.
    Quote,
    /// The carriage return.
    Return,
    /// The slash.
    Slash,
}

/// The characters with the Unicode property `White_Space`.
pub open spec fn is_white(c: char) -> bool {
    ||| 0x9 <= c as u32 <= 0xD
    ||| c as u32 == 0x20
    ||| c as u32 == 0x85
    ||| c as u32 == 0xA0
    ||| c as u32 == 0x1680
    ||| 0x2000 <= c as u32 <= 0x200A
    ||| c as u32 == 0x2028
    ||| c as u32 == 0x2029
    ||| c as u32 == 0x202F
    ||| c as u32 == 0x205F
    ||| c as u32 == 0x3000
}

impl Trim {
    /// The character belongs to the class.
    pub open spec fn takes(self, c: char) -> bool {
        match self {
            Trim::White => is_white(c),
            Trim::Quote => c == '"',
            Trim::Return => c == '\r',
            Trim::Slash => c == '/',
        }
    }

    /// Whether the character belongs to the class.
    pub fn matches(self, c: char) -> (r: bool)
        ensures
            r == self.takes(c),
    {
        match self {
            Trim::White => {
                let u: u32 = c as u32;
                (0x9 <= u && u <= 0xD) || u == 0x20 || u == 0x85 || u == 0xA0 || u == 0x1680 || (
                0x2000 <= u && u <= 0x200A) || u == 0x2028 || u == 0x2029 || u == 0x202F || u
                    == 0x205F || u == 0x3000
            },
            Trim::Quote => c == '"',
            Trim::Return => c == '\r',
            Trim::Slash => c == '/',
        }
    }
}

/// `s` without the characters of the class at its start.
pub open spec fn trim_front(s: Seq<char>, t: Trim) -> Seq<char>
    decreases s.len(),
{
    if s.len() > 0 && t.takes(s[0]) {
        trim_front(s.drop_first(), t)
    } else {
        s
    }
}

/// `s` without the characters of the class at its end.
pub open spec fn trim_back(s: Seq<char>, t: Trim) -> Seq<char>
    decreases s.len(),
{
    if s.len() > 0 && t.takes(s.last()) {
        trim_back(s.drop_last(), t)
    } else {
        s
    }
}

/// `s` without the characters of the class at either end.
pub open spec fn trim(s: Seq<char>, t: Trim) -> Seq<char> {
    trim_back(trim_front(s, t), t)
}

/// `cs` without the characters of the class at its start.
pub fn trim_chars_front<'a>(cs: &'a [char], t: Trim) -> (r: &'a [char])
    ensures
        r@ == trim_front(cs@, t),
{
    let mut lo: usize = 0;
    assert(cs@.skip(0) =~= cs@);
    while lo < cs.len() && t.matches(cs[lo])
        invariant
            lo <= cs@.len(),
            trim_front(cs@, t) == trim_front(cs@.skip(lo as int), t),
        decreases cs@.len() - lo,
    {
        assert(cs@.skip(lo as int).drop_first() =~= cs@.skip(lo + 1));
        lo += 1;
    }
    slice_from(cs, lo)
}

/// `cs` without the characters of the class at its end.
pub fn trim_chars_back<'a>(cs: &'a [char], t: Trim) -> (r: &'a [char])
    ensures
        r@ == trim_back(cs@, t),
{
    let mut hi: usize = cs.len();
    assert(cs@.take(hi as int) =~= cs@);
    while hi > 0 && t.matches(cs[hi - 1])
        invariant
            hi <= cs@.len(),
            trim_back(cs@, t) == trim_back(cs@.take(hi as int), t),
        decreases hi,
    {
        assert(cs@.take(hi as int).drop_last() =~= cs@.take(hi - 1));
        hi -= 1;
    }
    slice_to(cs, hi)
}

/// `cs` without the characters of the class at either end.
pub fn trim_chars<'a>(cs: &'a [char], t: Trim) -> (r: &'a [char])
    ensures
        r@ == trim(cs@, t),
{
    trim_chars_back(trim_chars_front(cs, t), t)
}

/// The characters of `s` up to the first white space.
pub open spec fn leading_word(s: Seq<char>) -> Seq<char>
    decreases s.len(),
{
    if s.len() == 0 || is_white(s[0]) {
        seq![]
    } else {
        seq![s[0]] + leading_word(s.drop_first())
    }
}

/// The first of the words that white space separates; empty where there is none.
pub open spec fn first_word(s: Seq<char>) -> Seq<char> {
    leading_word(trim_front(s, Trim::White))
}

/// The first of the words that white space separates; empty where there is none.
pub fn first_word_chars<'a>(cs: &'a [char]) -> (r: &'a [char])
    ensures
        r@ == first_word(cs@),
{
    let t = trim_chars_front(cs, Trim::White);
    let mut n: usize = 0;
    assert(t@.skip(0) =~= t@);
    while n < t.len() && !Trim::White.matches(t[n])
        invariant
            n <= t@.len(),
            leading_word(t@) =~= t@.take(n as int) + leading_word(t@.skip(n as int)),
        decreases t@.len() - n,
    {
        assert(t@.skip(n as int).drop_first() =~= t@.skip(n + 1));
        assert(t@.take(n + 1) =~= t@.take(n as int) + seq![t@[n as int]]);
        n += 1;
    }
    assert(leading_word(t@.skip(n as int)) =~= seq![]);
    slice_to(t, n)
}

/// The part of `s` in front of the first `c`; all of it where there is none.
pub open spec fn before(s: Seq<char>, c: char) -> Seq<char> {
    match find(s, seq![c]) {
        Some(i) => s.take(i),
        None => s,
    }
}

/// The part of `cs` in front of the first `c`; all of it where there is none.
pub fn before_char<'a>(cs: &'a [char], c: char) -> (r: &'a [char])
    ensures
        r@ == before(cs@, c),
{
    match find_char(cs, c) {
        Some(i) => slice_to(cs, i),
        None => cs,
    }
}

/// The part of `s` behind the last `c`; all of it where there is none.
pub open spec fn after_last(s: Seq<char>, c: char) -> Seq<char> {
    match rfind(s, c) {
        Some(i) => s.skip(i + 1),
        None => s,
    }
}

/// The part of `cs` behind the last `c`; all of it where there is none.
pub fn after_last_char<'a>(cs: &'a [char], c: char) -> (r: &'a [char])
    ensures
        r@ == after_last(cs@, c),
{
    match rfind_char(cs, c) {
        Some(i) => slice_from(cs, i + 1),
        None => cs,
    }
}

/// The part of `s` behind the prefix `pat`, if `s` starts with it.
pub open spec fn after_prefix(s: Seq<char>, pat: Seq<char>) -> Option<Seq<char>> {
    if pat.is_prefix_of(s) {
        Some(s.skip(pat.len() as int))
    } else {
        None
    }
}

/// Whether the two texts are the same.
pub fn same_chars(a: &[char], b: &[char]) -> (r: bool)
    ensures
        r == (a@ == b@),
{
    if a.len() != b.len() {
        return false;
    }
    let r = stands_at(a, b, 0);
    assert(a@.subrange(0, b@.len() as int) =~= a@);
    r
}

/// Whether the characters are those of `text`.
pub fn chars_are(cs: &[char], text: &str) -> (r: bool)
    ensures
        r == (cs@ == text@),
{
    let t = chars_of(text);
    same_chars(cs, t.as_slice())
}

/// Whether `text` stands somewhere in `cs`.
pub fn chars_contain(cs: &[char], text: &str) -> (r: bool)
    ensures
        r == contains_text(cs@, text@),
{
    let t = chars_of(text);
    let found = find_text(cs, t.as_slice());
    proof {
        lemma_find(cs@, text@);
        if let Some(i) = find(cs@, text@) {
            assert(occurs_at(cs@, text@, i));
        }
    }
    found.is_some()
}

/// The part of `cs` behind the prefix `text`, if `cs` starts with it.
pub fn chars_after_prefix<'a>(cs: &'a [char], text: &str) -> (r: Option<&'a [char]>)
    ensures
        match r {
            Some(rest) => after_prefix(cs@, text@) == Some(rest@),
            None => after_prefix(cs@, text@) is None,
        },
{
    let t = chars_of(text);
    if stands_at(cs, t.as_slice(), 0) {
        Some(slice_from(cs, t.len()))
    } else {
        None
    }
}

/// What the bytes read as where they are not UTF-8: the text with replacement characters that
/// `String::from_utf8_lossy` makes of them.
pub uninterp spec fn utf8_lossy(bytes: Seq<u8>) -> Seq<char>;

/// What the bytes read as.
pub open spec fn bytes_text(bytes: Seq<u8>) -> Seq<char> {
    if valid_utf8(bytes) {
        decode_utf8(bytes)
    } else {
        utf8_lossy(bytes)
    }
}

/// `String::from_utf8_lossy`: UTF-8 is decoded as it is; of other bytes it is only said that the
/// same bytes give the same text.
#[verifier::external_body]
pub(crate) fn text_of_bytes(bytes: &[u8]) -> (r: String)
    ensures
        r@ == (if valid_utf8(bytes@) {
            decode_utf8(bytes@)
        } else {
            utf8_lossy(bytes@)
        }),
{
    String::from_utf8_lossy(bytes).into_owned()
}

/// The texts behind a list of strings.
pub open spec fn texts(v: Seq<String>) -> Seq<Seq<char>> {
    Seq::new(v.len(), |i: int| v[i]@)
}

/// A line without the one carriage return that may end it.
pub open spec fn without_return(line: Seq<char>) -> Seq<char> {
    if line.len() > 0 && line.last() == '\r' {
        line.drop_last()
    } else {
        line
    }
}

/// The lines of `s`: each ends in `\n` or `\r\n`, which is not part of it; the end of the last
/// one is optional, and where it is missing the last line stays as it is.
pub open spec fn lines(s: Seq<char>) -> Seq<Seq<char>>
    decreases s.len(),
{
    proof {
        lemma_find_char(s, '\n');
    }
    if s.len() == 0 {
        seq![]
    } else {
        match find(s, seq!['\n']) {
            None => seq![s],
            Some(i) => seq![without_return(s.take(i))] + lines(s.skip(i + 1)),
        }
    }
}

/// The lines of `cs`.
pub fn split_lines(cs: &[char]) -> (r: Vec<String>)
    ensures
        texts(r@) == lines(cs@),
{
    let mut out: Vec<String> = Vec::new();
    let mut rest = cs;
    while rest.len() > 0
        invariant
            lines(cs@) =~= texts(out@) + lines(rest@),
        decreases rest@.len(),
    {
        let ghost done = out@;
        match find_char(rest, '\n') {
            None => {
                out.push(string_of(rest));
                assert(texts(out@) =~= texts(done) + seq![rest@]);
                rest = slice_from(rest, rest.len());
                assert(lines(rest@) =~= seq![]);
            },
            Some(i) => {
                let end: usize = if i > 0 && rest[i - 1] == '\r' {
                    i - 1
                } else {
                    i
                };
                assert(rest@.take(end as int) =~= without_return(rest@.take(i as int)));
                out.push(string_of(slice_to(rest, end)));
                assert(texts(out@) =~= texts(done) + seq![without_return(rest@.take(i as int))]);
                rest = slice_from(rest, i + 1);
            },
        }
    }
    assert(lines(rest@) =~= seq![]);
    out
}

/// A pattern without a carriage return is found where it is found without one at the end.
pub proof fn lemma_find_before_return(s: Seq<char>, pat: Seq<char>)
    requires
        pat.len() > 0,
        !pat.contains('\r'),
    ensures
        find(s.push('\r'), pat) == find(s, pat),
        contains_text(s.push('\r'), pat) == contains_text(s, pat),
        pat.is_prefix_of(s.push('\r')) == pat.is_prefix_of(s),
{
    let r = s.push('\r');
    assert forall|i: int| occurs_at(r, pat, i) == occurs_at(s, pat, i) by {
        if occurs_at(r, pat, i) {
            if i + pat.len() == r.len() {
                assert(r.subrange(i, i + pat.len())[pat.len() - 1] == '\r');
                assert(pat.contains(pat[pat.len() - 1]));
            } else {
                assert(r.subrange(i, i + pat.len()) =~= s.subrange(i, i + pat.len()));
            }
        }
        if occurs_at(s, pat, i) {
            assert(r.subrange(i, i + pat.len()) =~= s.subrange(i, i + pat.len()));
        }
    }
    lemma_find(s, pat);
    lemma_find(r, pat);
    match find(s, pat) {
        Some(i) => {
            assert(occurs_at(s, pat, i));
            assert(is_first(r, pat, i));
            lemma_find_is(r, pat, i);
        },
        None => {
            if let Some(i) = find(r, pat) {
                assert(occurs_at(r, pat, i));
            }
        },
    }
    if contains_text(r, pat) {
        let i = choose|i: int| occurs_at(r, pat, i);
        assert(occurs_at(s, pat, i));
    }
    if contains_text(s, pat) {
        let i = choose|i: int| occurs_at(s, pat, i);
        assert(occurs_at(r, pat, i));
    }
    assert(occurs_at(r, pat, 0) == occurs_at(s, pat, 0));
}

/// What follows a prefix keeps the carriage return at the end.
pub proof fn lemma_after_prefix_before_return(s: Seq<char>, pat: Seq<char>)
    requires
        pat.len() > 0,
        !pat.contains('\r'),
    ensures
        after_prefix(s.push('\r'), pat) == match after_prefix(s, pat) {
            Some(rest) => Some(rest.push('\r')),
            None => None,
        },
{
    lemma_find_before_return(s, pat);
    if pat.is_prefix_of(s) {
        assert(s.push('\r').skip(pat.len() as int) =~= s.skip(pat.len() as int).push('\r'));
    }
}

/// Trimming white space takes a carriage return at the end, too.
pub proof fn lemma_trim_before_return(s: Seq<char>)
    ensures
        trim(s.push('\r'), Trim::White) == trim(s, Trim::White),
    decreases s.len(),
{
    let r = s.push('\r');
    if s.len() == 0 {
        assert(r.drop_first() =~= s);
        assert(trim_front(r.drop_first(), Trim::White) == s);
    } else if is_white(s[0]) {
        assert(r.drop_first() =~= s.drop_first().push('\r'));
        lemma_trim_before_return(s.drop_first());
    } else {
        assert(r.drop_last() =~= s);
    }
}

proof fn lemma_leading_word_before_return(s: Seq<char>)
    ensures
        leading_word(s.push('\r')) == leading_word(s),
    decreases s.len(),
{
    if s.len() > 0 && !is_white(s[0]) {
        assert(s.push('\r').drop_first() =~= s.drop_first().push('\r'));
        lemma_leading_word_before_return(s.drop_first());
    }
}

/// A carriage return at the end does not belong to the first word.
pub proof fn lemma_first_word_before_return(s: Seq<char>)
    ensures
        first_word(s.push('\r')) == first_word(s),
    decreases s.len(),
{
    let r = s.push('\r');
    if s.len() == 0 {
        assert(r.drop_first() =~= s);
        assert(trim_front(r.drop_first(), Trim::White) == s);
    } else if is_white(s[0]) {
        assert(r.drop_first() =~= s.drop_first().push('\r'));
        lemma_first_word_before_return(s.drop_first());
    } else {
        lemma_leading_word_before_return(s);
    }
}

/// The characters of `pat` stand in `s` from position `i` on, one by one.
pub open spec fn reads_at(s: Seq<char>, pat: Seq<char>, i: int) -> bool {
    &&& 0 <= i <= s.len() - pat.len()
    &&& forall|k: int| 0 <= k < pat.len() ==> s[i + k] == #[trigger] pat[k]
}

proof fn lemma_reads_at(s: Seq<char>, pat: Seq<char>, i: int)
    ensures
        reads_at(s, pat, i) == occurs_at(s, pat, i),
{
    if 0 <= i <= s.len() - pat.len() {
        let part = s.subrange(i, i + pat.len());
        if reads_at(s, pat, i) {
            assert(part =~= pat);
        }
        if occurs_at(s, pat, i) {
            assert forall|k: int| 0 <= k < pat.len() implies s[i + k] == #[trigger] pat[k] by {
                assert(part[k] == s[i + k]);
            }
        }
    }
}

/// A text that is searched for is found at the first position from which its characters stand
/// there, and it is found whenever there is one.
pub proof fn law_text_is_found_where_it_first_stands(s: Seq<char>, pat: Seq<char>)
    ensures
        match find(s, pat) {
            Some(i) => reads_at(s, pat, i) && forall|j: int|
                0 <= j < i ==> !#[trigger] reads_at(s, pat, j),
            None => forall|j: int| !#[trigger] reads_at(s, pat, j),
        },
        contains_text(s, pat) <==> exists|j: int| #[trigger] reads_at(s, pat, j),
{
    lemma_find(s, pat);
    assert forall|j: int| #[trigger] reads_at(s, pat, j) == occurs_at(s, pat, j) by {
        lemma_reads_at(s, pat, j);
    }
    if contains_text(s, pat) {
        let j = choose|j: int| occurs_at(s, pat, j);
        assert(reads_at(s, pat, j));
    }
    if let Some(i) = find(s, pat) {
        assert(reads_at(s, pat, i));
    }
}

/// A text stands in whatever it was put into.
pub proof fn law_text_stands_where_it_was_put(a: Seq<char>, pat: Seq<char>, b: Seq<char>)
    ensures
        contains_text(a + pat + b, pat),
        find(a + pat + b, pat) matches Some(i) && i <= a.len(),
{
    let s = a + pat + b;
    assert(s.subrange(a.len() as int, a.len() as int + pat.len()) =~= pat);
    assert(occurs_at(s, pat, a.len() as int));
    lemma_find(s, pat);
}

/// The position of the last such character, and `None` exactly where there is none.
pub proof fn law_last_character_is_found(a: Seq<char>, c: char, b: Seq<char>)
    requires
        !b.contains(c),
    ensures
        rfind(a.push(c) + b, c) == Some(a.len() as int),
        rfind(b, c) is None,
        after_last(a.push(c) + b, c) == b,
        after_last(b, c) == b,
{
    let s = a.push(c) + b;
    lemma_rfind(s, c);
    lemma_rfind(b, c);
    assert(s[a.len() as int] == c);
    assert(s.contains(c));
    let i = rfind(s, c)->0;
    if i > a.len() {
        assert(b[i - a.len() - 1] == c);
    }
    assert(s.skip(a.len() as int + 1) =~= b);
}

/// What stands in front of the first such character; all of the text where there is none.
pub proof fn law_before_first_character(a: Seq<char>, c: char, b: Seq<char>)
    requires
        !a.contains(c),
    ensures
        before(a.push(c) + b, c) == a,
        before(a, c) == a,
{
    let s = a.push(c) + b;
    lemma_find_char(a, c);
    assert(s[a.len() as int] == c);
    assert forall|j: int| 0 <= j < a.len() implies s[j] != c by {
        assert(a[j] == s[j]);
        assert(a.contains(a[j]));
    }
    lemma_find_char_is(s, c, a.len() as int);
    assert(s.take(a.len() as int) =~= a);
}

/// What follows a prefix is what was put behind it; a text that does not start with the prefix has
/// nothing behind it.
pub proof fn law_prefix_is_cut_off(s: Seq<char>, pat: Seq<char>, rest: Seq<char>)
    ensures
        after_prefix(pat + rest, pat) == Some(rest),
        after_prefix(s, pat) matches Some(behind) ==> s == pat + behind,
        after_prefix(s, pat) is None ==> s != pat + rest,
{
    let whole = pat + rest;
    assert(whole.subrange(0, pat.len() as int) =~= pat);
    assert(whole.skip(pat.len() as int) =~= rest);
    if pat.is_prefix_of(s) {
        assert(s =~= pat + s.skip(pat.len() as int));
    }
}

/// The double quote, the carriage return and the slash each make up a class of their own; the
/// others are white space, of which the blank, the tab and the line ends are the common ones.
pub proof fn law_trimmed_characters(c: char)
    ensures
        Trim::Quote.takes(c) <==> c == '"',
        Trim::Return.takes(c) <==> c == '\r',
        Trim::Slash.takes(c) <==> c == '/',
        c == ' ' || c == '\t' || c == '\n' || c == '\r' ==> Trim::White.takes(c),
        '!' <= c <= '~' ==> !Trim::White.takes(c),
{
}

/// Every character belongs to the class.
pub open spec fn all_taken(s: Seq<char>, t: Trim) -> bool {
    forall|i: int| 0 <= i < s.len() ==> t.takes(#[trigger] s[i])
}

/// No character belongs to the class.
pub open spec fn none_taken(s: Seq<char>, t: Trim) -> bool {
    forall|i: int| 0 <= i < s.len() ==> !t.takes(#[trigger] s[i])
}

proof fn lemma_trim_front(front: Seq<char>, s: Seq<char>, t: Trim)
    requires
        all_taken(front, t),
        s.len() > 0 ==> !t.takes(s[0]),
    ensures
        trim_front(front + s, t) == s,
    decreases front.len(),
{
    let whole = front + s;
    if front.len() == 0 {
        assert(whole =~= s);
    } else {
        assert(whole[0] == front[0]);
        assert(whole.drop_first() =~= front.drop_first() + s);
        assert forall|i: int| 0 <= i < front.drop_first().len() implies t.takes(
            #[trigger] front.drop_first()[i],
        ) by {
            assert(front.drop_first()[i] == front[i + 1]);
        }
        lemma_trim_front(front.drop_first(), s, t);
    }
}

/// Trimming the end takes all characters of the class off it, and leaves the rest as it is.
pub proof fn law_trimming_takes_the_back_off(s: Seq<char>, back: Seq<char>, t: Trim)
    requires
        all_taken(back, t),
        s.len() > 0 ==> !t.takes(s.last()),
    ensures
        trim_back(s + back, t) == s,
    decreases back.len(),
{
    let whole = s + back;
    if back.len() == 0 {
        assert(whole =~= s);
    } else {
        assert(whole.last() == back.last());
        assert(whole.drop_last() =~= s + back.drop_last());
        law_trimming_takes_the_back_off(s, back.drop_last(), t);
    }
}

/// Trimming takes all characters of the class off the ends and no other: what is left is what
/// stands between them, from the first to the last that does not belong to the class.
pub proof fn law_trimming_takes_the_ends_off(
    front: Seq<char>,
    s: Seq<char>,
    back: Seq<char>,
    t: Trim,
)
    requires
        all_taken(front, t),
        all_taken(back, t),
        s.len() > 0 ==> !t.takes(s[0]) && !t.takes(s.last()),
    ensures
        trim(front + s + back, t) == s,
{
    law_trimming_takes_the_back_off(s, back, t);
    if s.len() == 0 {
        let all = front + s + back;
        assert(all =~= (front + back) + s);
        assert forall|i: int| 0 <= i < (front + back).len() implies t.takes(
            #[trigger] (front + back)[i],
        ) by {
            if i < front.len() {
                assert((front + back)[i] == front[i]);
            } else {
                assert((front + back)[i] == back[i - front.len()]);
            }
        }
        lemma_trim_front(front + back, s, t);
    } else {
        assert(front + s + back =~= front + (s + back));
        lemma_trim_front(front, s + back, t);
    }
}

proof fn lemma_leading_word(word: Seq<char>, rest: Seq<char>)
    requires
        none_taken(word, Trim::White),
        rest.len() > 0 ==> is_white(rest[0]),
    ensures
        leading_word(word + rest) == word,
    decreases word.len(),
{
    let whole = word + rest;
    if word.len() == 0 {
        assert(whole =~= rest);
        assert(leading_word(whole) =~= word);
    } else {
        assert(whole[0] == word[0]);
        assert(!Trim::White.takes(word[0]));
        assert(whole.drop_first() =~= word.drop_first() + rest);
        assert forall|i: int| 0 <= i < word.drop_first().len() implies !Trim::White.takes(
            #[trigger] word.drop_first()[i],
        ) by {
            assert(word.drop_first()[i] == word[i + 1]);
        }
        lemma_leading_word(word.drop_first(), rest);
        assert(leading_word(whole) =~= word);
    }
}

/// The first word is what stands between the white space in front of it and that behind it; of a
/// text that is all white space it is empty.
pub proof fn law_first_word_stands_between_white_space(
    front: Seq<char>,
    word: Seq<char>,
    rest: Seq<char>,
)
    requires
        all_taken(front, Trim::White),
        none_taken(word, Trim::White),
        rest.len() > 0 ==> Trim::White.takes(rest[0]),
        word.len() == 0 ==> rest.len() == 0,
    ensures
        first_word(front + word + rest) == word,
{
    assert(front + word + rest =~= front + (word + rest));
    if word.len() > 0 {
        assert((word + rest)[0] == word[0]);
        assert(!Trim::White.takes(word[0]));
    }
    lemma_trim_front(front, word + rest, Trim::White);
    lemma_leading_word(word, rest);
}

/// UTF-8 reads as the text that it encodes.
pub proof fn law_encoded_text_is_read_back(text: Seq<char>)
    ensures
        bytes_text(encode_utf8(text)) == text,
{
    encode_utf8_valid_utf8(text);
    encode_utf8_decode_utf8(text);
}

/// A line feed ends a line, together with one carriage return in front of it; what follows the
/// last line feed is a line as it stands, unless nothing follows.
pub proof fn law_line_feeds_end_lines(line: Seq<char>, rest: Seq<char>)
    requires
        !line.contains('\n'),
    ensures
        lines(line + seq!['\r', '\n'] + rest) == seq![line] + lines(rest),
        line.len() == 0 || line.last() != '\r' ==> lines(line + seq!['\n'] + rest) == seq![line]
            + lines(rest),
        line.len() > 0 ==> lines(line) == seq![line],
        lines(Seq::<char>::empty()) == Seq::<Seq<char>>::empty(),
{
    lemma_find_char(line, '\n');
    let n = line.len() as int;
    let unix = line + seq!['\n'] + rest;
    assert(unix[n] == '\n');
    assert forall|j: int| 0 <= j < n implies unix[j] != '\n' by {
        assert(unix[j] == line[j]);
        assert(line.contains(line[j]));
    }
    lemma_find_char_is(unix, '\n', n);
    assert(unix.take(n) =~= line);
    assert(unix.skip(n + 1) =~= rest);
    let dos = line + seq!['\r', '\n'] + rest;
    assert(dos[n + 1] == '\n');
    assert forall|j: int| 0 <= j < n + 1 implies dos[j] != '\n' by {
        if j < n {
            assert(dos[j] == line[j]);
            assert(line.contains(line[j]));
        }
    }
    lemma_find_char_is(dos, '\n', n + 1);
    assert(dos.take(n + 1) =~= line.push('\r'));
    assert(line.push('\r').drop_last() =~= line);
    assert(dos.skip(n + 2) =~= rest);
}

} // verus!
