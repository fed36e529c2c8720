//! Reading a growing file piece by piece, line by line.
use crate::text::{
    after_last, bytes_text, chars_of, find, law_last_character_is_found, law_line_feeds_end_lines,
    lemma_find_char, lemma_find_char_is, lemma_rfind, lines,
    rfind, rfind_char, slice_from, slice_to, split_lines, string_of, text_of_bytes, texts,
    without_return,
};
use vstd::prelude::*;
use vstd::slice::slice_subrange;
use vstd::utf8::{decode_utf8, pop_first_scalar, valid_utf8, valid_utf8_concat};

verus! {

/// What is gathered from the lines of a file, one after the other.
pub trait LineFold: Sized {
    /// What is gathered before the first line.
    spec fn start() -> Self;

    /// What is gathered after one more line; `None` where the line cannot be taken.
    spec fn step(self, line: Seq<char>) -> Option<Self>;

    /// An empty line adds nothing.
    proof fn empty_line_adds_nothing(self)
        ensures
            self.step(Seq::<char>::empty()) == Some(self),
    ;

    /// A carriage return at the end of a line makes no difference.
    proof fn return_makes_no_difference(self, line: Seq<char>)
        ensures
            self.step(line.push('\r')) == self.step(line),
    ;
}

/// All the lines in order, up to the first that cannot be taken, and whether all were.
pub open spec fn run<S: LineFold>(s: S, lines: Seq<Seq<char>>) -> (S, bool)
    decreases lines.len(),
{
    if lines.len() == 0 {
        (s, true)
    } else {
        match s.step(lines[0]) {
            Some(next) => run(next, lines.drop_first()),
            None => (s, false),
        }
    }
}

/// A value that gathers what the lines of a file say.
pub trait LineSink: Sized {
    /// What is gathered, as a mathematical value.
    type Summary: LineFold;

    /// What this value has gathered.
    spec fn summary(&self) -> Self::Summary;

    /// A value that has gathered nothing yet.
    fn fresh() -> (r: Self)
        ensures
            r.summary() == <Self::Summary as LineFold>::start(),
    ;

    /// Takes one more line, or leaves everything as it is where the line cannot be taken.
    fn take_line(&mut self, line: &str) -> (r: bool)
        ensures
            match old(self).summary().step(line@) {
                Some(next) => r && final(self).summary() == next,
                None => !r && final(self).summary() == old(self).summary(),
            },
    ;
}

/// How far a file has been read, and what was gathered from it.
pub struct TailCache<R> {
    /// The path of the file.
    pub path: Vec<u8>,
    /// The number of bytes read so far.
    pub offset: u64,
    /// The start of a line whose end has not been read yet.
    pub partial: String,
    /// What the complete lines say.
    pub result: R,
}

/// The mathematical view of a `TailCache`.
pub struct Tail<S> {
    pub path: Seq<u8>,
    pub offset: nat,
    pub partial: Seq<char>,
    pub result: S,
}

impl<R: LineSink> TailCache<R> {
    /// The mathematical view.
    pub open spec fn view(&self) -> Tail<R::Summary> {
        Tail {
            path: self.path@,
            offset: self.offset as nat,
            partial: self.partial@,
            result: self.result.summary(),
        }
    }
}

/// The complete lines of a text: all up to the last line feed.
pub open spec fn complete_part(full: Seq<char>) -> Seq<char> {
    match rfind(full, '\n') {
        Some(i) => full.take(i),
        None => seq![],
    }
}

impl<S: LineFold> Tail<S> {
    /// A file of which nothing has been read.
    pub open spec fn unread(path: Seq<u8>) -> Self {
        Tail { path, offset: 0, partial: seq![], result: S::start() }
    }

    /// The state from which a file of this length is read on: a file that got shorter is read
    /// from its start again.
    pub open spec fn before_reading(self, file_len: nat) -> Self {
        if file_len < self.offset {
            Self::unread(self.path)
        } else {
            self
        }
    }

    /// The state after one more piece of text, which ends at this offset, and whether all its lines
    /// were taken.
    pub open spec fn after_text(self, text: Seq<char>, end: nat) -> (Self, bool) {
        let full = self.partial + text;
        let (result, taken) = run(self.result, lines(complete_part(full)));
        (
            Tail {
                path: self.path,
                offset: end,
                partial: after_last(full, '\n'),
                result,
            },
            taken,
        )
    }

    /// The state after these bytes, which follow those that were read so far, and whether all
    /// their lines were taken. No file has more bytes than 64 bits can count.
    pub open spec fn after_bytes(self, bytes: Seq<u8>) -> (Self, bool) {
        if self.offset + bytes.len() <= u64::MAX {
            self.after_text(bytes_text(bytes), self.offset + bytes.len())
        } else {
            (self, false)
        }
    }

    /// The state after an update from a file with this content.
    pub open spec fn after_update(self, content: Seq<u8>) -> (Self, bool) {
        let from = self.before_reading(content.len());
        if content.len() == from.offset {
            (from, true)
        } else {
            from.after_text(bytes_text(content.skip(from.offset as int)), content.len())
        }
    }

    /// This state is what a first reading of the content gives.
    pub open spec fn in_step_with(self, content: Seq<u8>) -> bool {
        Self::unread(self.path).after_update(content) == (self, true)
    }
}

/// A cache for a file of which nothing has been read.
pub fn unread_cache<R: LineSink>(path: Vec<u8>) -> (r: TailCache<R>)
    ensures
        r@ == Tail::<R::Summary>::unread(path@),
{
    TailCache { path, offset: 0, partial: String::new(), result: R::fresh() }
}

/// Prepares for reading a file of this length. Answers the position from which to read, or `None`
/// where there is nothing new.
pub fn begin_update<R: LineSink>(cache: &mut TailCache<R>, file_len: u64) -> (r: Option<u64>)
    ensures
        final(cache)@ == old(cache)@.before_reading(file_len as nat),
        final(cache).path@ == old(cache).path@,
        file_len < old(cache).offset ==> final(cache).offset == 0 && final(cache).partial@.len()
            == 0,
        file_len >= old(cache).offset ==> final(cache).offset == old(cache).offset
            && final(cache).partial@ == old(cache).partial@,
        match r {
            Some(from) => from == final(cache).offset && from < file_len,
            None => final(cache).offset == file_len,
        },
{
    if file_len < cache.offset {
        cache.offset = 0;
        cache.partial = String::new();
        cache.result = R::fresh();
    }
    if file_len == cache.offset {
        None
    } else {
        Some(cache.offset)
    }
}

/// Takes lines in order, up to the first that cannot be taken.
fn take_lines<R: LineSink>(result: &mut R, batch: &Vec<String>) -> (r: bool)
    ensures
        (final(result).summary(), r) == run(old(result).summary(), texts(batch@)),
{
    let ghost all = texts(batch@);
    let ghost first = result.summary();
    let mut i: usize = 0;
    assert(all.skip(0) =~= all);
    while i < batch.len()
        invariant
            i <= batch@.len(),
            all == texts(batch@),
            first == old(result).summary(),
            run(first, all) == run(result.summary(), all.skip(i as int)),
        decreases batch@.len() - i,
    {
        assert(all.skip(i as int)[0] == batch@[i as int]@);
        assert(all.skip(i as int).drop_first() =~= all.skip(i + 1));
        if !result.take_line(batch[i].as_str()) {
            return false;
        }
        i += 1;
    }
    true
}

/// Takes bytes that were read from the file, from where the last update left off. Answers whether
/// all complete lines were taken; the first that cannot be taken ends the update. Bytes that are
/// more than 64 bits can count are not taken.
pub fn finish_update<R: LineSink>(cache: &mut TailCache<R>, bytes: &[u8]) -> (r: bool)
    ensures
        (final(cache)@, r) == old(cache)@.after_bytes(bytes@),
{
    let count: u64 = bytes.len() as u64;
    if count > u64::MAX - cache.offset {
        return false;
    }
    cache.offset = cache.offset + count;
    let text = text_of_bytes(bytes);
    let mut combined = cache.partial.clone();
    combined.append(text.as_str());
    let cs = chars_of(combined.as_str());
    match rfind_char(cs.as_slice(), '\n') {
        Some(at) => {
            cache.partial = string_of(slice_from(cs.as_slice(), at + 1));
            let batch = split_lines(slice_to(cs.as_slice(), at));
            take_lines(&mut cache.result, &batch)
        },
        None => {
            cache.partial = combined;
            true
        },
    }
}

/// Brings the cache up to date with a file of this content; `None` where it cannot be read.
/// Answers whether all new complete lines were taken.
pub fn update_cache<R: LineSink>(cache: &mut TailCache<R>, content: Option<&[u8]>) -> (r: bool)
    ensures
        match content {
            Some(bytes) => (final(cache)@, r) == old(cache)@.after_update(bytes@),
            None => r && final(cache)@ == old(cache)@,
        },
{
    match content {
        Some(bytes) => {
            let file_len: u64 = bytes.len() as u64;
            match begin_update(cache, file_len) {
                Some(from) => {
                    assert(bytes@.subrange(from as int, bytes@.len() as int) =~= bytes@.skip(
                        from as int,
                    ));
                    finish_update(cache, slice_subrange(bytes, from as usize, bytes.len()))
                },
                None => true,
            }
        },
        None => true,
    }
}

proof fn lemma_run_concat<S: LineFold>(s: S, a: Seq<Seq<char>>, b: Seq<Seq<char>>)
    ensures
        run(s, a + b) == if run(s, a).1 {
            run(run(s, a).0, b)
        } else {
            run(s, a)
        },
    decreases a.len(),
{
    if a.len() == 0 {
        assert(a + b =~= b);
    } else {
        assert((a + b).drop_first() =~= a.drop_first() + b);
        match s.step(a[0]) {
            Some(next) => lemma_run_concat(next, a.drop_first(), b),
            None => {},
        }
    }
}

/// The lines of a text that ends in a line feed, followed by more text.
proof fn lemma_lines_concat(x: Seq<char>, y: Seq<char>)
    ensures
        lines(x.push('\n') + y) == lines(x.push('\n')) + lines(y),
    decreases x.len(),
{
    let xn = x.push('\n');
    let all = xn + y;
    lemma_find_char(xn, '\n');
    assert(xn[x.len() as int] == '\n');
    let k = find(xn, seq!['\n'])->0;
    assert(all[k] == '\n');
    assert forall|j: int| 0 <= j < k implies all[j] != '\n' by {
        assert(xn[j] != '\n');
    }
    lemma_find_char_is(all, '\n', k);
    assert(all.take(k) =~= xn.take(k));
    if k == x.len() {
        assert(xn.skip(k + 1) =~= seq![]);
        assert(all.skip(k + 1) =~= y);
        assert(lines(xn.skip(k + 1)) =~= seq![]);
    } else {
        let rest = x.skip(k + 1);
        assert(xn.skip(k + 1) =~= rest.push('\n'));
        assert(all.skip(k + 1) =~= rest.push('\n') + y);
        lemma_lines_concat(rest, y);
    }
    assert(lines(all) =~= lines(xn) + lines(y));
}

/// Whether the last line feed is there makes no difference to what the lines add up to.
proof fn lemma_last_line_feed<S: LineFold>(s: S, x: Seq<char>)
    ensures
        run(s, lines(x.push('\n'))) == run(s, lines(x)),
    decreases x.len(),
{
    let xn = x.push('\n');
    lemma_find_char(xn, '\n');
    lemma_find_char(x, '\n');
    assert(xn[x.len() as int] == '\n');
    let k = find(xn, seq!['\n'])->0;
    if k == x.len() {
        assert forall|j: int| 0 <= j < x.len() implies x[j] != '\n' by {
            assert(xn[j] != '\n');
        }
        assert(!x.contains('\n'));
        assert(xn.take(k) =~= x);
        assert(xn.skip(k + 1) =~= seq![]);
        assert(lines(xn.skip(k + 1)) =~= seq![]);
        assert(lines(xn) =~= seq![without_return(x)]);
        assert(lines(xn).drop_first() =~= seq![]);
        if x.len() == 0 {
            assert(x =~= Seq::<char>::empty());
            s.empty_line_adds_nothing();
            assert(lines(x) =~= seq![]);
        } else {
            assert(lines(x) =~= seq![x]);
            assert(lines(x).drop_first() =~= seq![]);
            if x.last() == '\r' {
                assert(x =~= x.drop_last().push('\r'));
                s.return_makes_no_difference(x.drop_last());
            }
            match s.step(x) {
                Some(next) => {
                    assert(run(next, lines(x).drop_first()) == (next, true));
                    assert(run(next, lines(xn).drop_first()) == (next, true));
                },
                None => {},
            }
        }
    } else {
        assert(x[k] == '\n');
        assert forall|j: int| 0 <= j < k implies x[j] != '\n' by {
            assert(xn[j] != '\n');
        }
        lemma_find_char_is(x, '\n', k);
        let rest = x.skip(k + 1);
        assert(xn.take(k) =~= x.take(k));
        assert(xn.skip(k + 1) =~= rest.push('\n'));
        let line = without_return(x.take(k));
        assert(lines(x) =~= seq![line] + lines(rest));
        assert(lines(xn) =~= seq![line] + lines(rest.push('\n')));
        assert(lines(x).drop_first() =~= lines(rest));
        assert(lines(xn).drop_first() =~= lines(rest.push('\n')));
        match s.step(line) {
            Some(next) => lemma_last_line_feed(next, rest),
            None => {},
        }
    }
}

/// A text may be taken in two pieces, cut anywhere: the two together leave what the whole leaves.
/// Where a line of the first piece cannot be taken, the whole stops at that line too.
pub proof fn law_pieces_add_up<S: LineFold>(c: Tail<S>, a: Seq<char>, b: Seq<char>, n: nat, m: nat)
    ensures
        c.after_text(a, n).1 ==> c.after_text(a, n).0.after_text(b, m) == c.after_text(a + b, m),
        !c.after_text(a, n).1 ==> !c.after_text(a + b, m).1 && c.after_text(a + b, m).0.result
            == c.after_text(a, n).0.result,
{
    let head = c.partial + a;
    let whole = c.partial + (a + b);
    let mid = c.after_text(a, n).0;
    assert(whole =~= head + b);
    lemma_rfind(head, '\n');
    match rfind(head, '\n') {
        None => {
            assert(mid.partial + b =~= whole);
            assert(lines(complete_part(head)) =~= seq![]);
        },
        Some(i) => {
            let x = head.take(i);
            let y = head.skip(i + 1) + b;
            assert(mid.partial + b == y);
            assert(whole =~= x.push('\n') + y);
            lemma_rfind(y, '\n');
            lemma_rfind(whole, '\n');
            match rfind(y, '\n') {
                None => {
                    assert forall|j: int| i < j < whole.len() implies whole[j] != '\n' by {
                        assert(y[j - i - 1] == whole[j]);
                    }
                    assert(whole[i] == '\n');
                    let k = rfind(whole, '\n')->0;
                    assert(k == i);
                    assert(whole.take(i) =~= x);
                    assert(whole.skip(i + 1) =~= y);
                    assert(lines(complete_part(y)) =~= seq![]);
                },
                Some(j) => {
                    assert(whole[i + 1 + j] == y[j]);
                    assert forall|k: int| i + 1 + j < k < whole.len() implies whole[k] != '\n' by {
                        assert(y[k - i - 1] == whole[k]);
                    }
                    let k = rfind(whole, '\n')->0;
                    assert(k == i + 1 + j);
                    let done = y.take(j);
                    assert(whole.take(k) =~= x.push('\n') + done);
                    assert(whole.skip(k + 1) =~= y.skip(j + 1));
                    lemma_lines_concat(x, done);
                    lemma_run_concat(c.result, lines(x.push('\n')), lines(done));
                    lemma_last_line_feed(c.result, x);
                },
            }
        },
    }
}

proof fn lemma_decode_concat(a: Seq<u8>, b: Seq<u8>)
    requires
        valid_utf8(a),
        valid_utf8(b),
    ensures
        valid_utf8(a + b),
        decode_utf8(a + b) == decode_utf8(a) + decode_utf8(b),
    decreases a.len(),
{
    valid_utf8_concat(a, b);
    if a.len() == 0 {
        assert(a + b =~= b);
        assert(decode_utf8(a + b) =~= decode_utf8(a) + decode_utf8(b));
    } else {
        let rest = pop_first_scalar(a);
        assert(rest.len() < a.len());
        lemma_decode_concat(rest, b);
        assert(pop_first_scalar(a + b) =~= rest + b);
        assert(decode_utf8(a + b) =~= decode_utf8(a) + decode_utf8(b));
    }
}

/// The text of the whole is that of its two parts: the cut does not go through a character.
pub open spec fn is_clean_cut(known: Seq<u8>, new: Seq<u8>) -> bool {
    bytes_text(known + new) == bytes_text(known) + bytes_text(new)
}

/// Between two pieces of UTF-8 the cut is clean.
pub proof fn law_cut_between_characters_is_clean(known: Seq<u8>, new: Seq<u8>)
    requires
        valid_utf8(known),
        valid_utf8(new),
    ensures
        is_clean_cut(known, new),
{
    lemma_decode_concat(known, new);
}

/// A file that grew is read on from where the last update left off, and the cache ends up as if
/// the texts of the two parts had been read at once, whatever bytes they are made of.
pub proof fn law_reading_on_adds_the_new_text<S: LineFold>(c: Tail<S>, known: Seq<u8>, new: Seq<u8>)
    requires
        c.in_step_with(known),
        new.len() > 0,
    ensures
        c.after_update(known + new) == Tail::<S>::unread(c.path).after_text(
            bytes_text(known) + bytes_text(new),
            known.len() + new.len(),
        ),
{
    let start = Tail::<S>::unread(c.path);
    let all = known + new;
    assert(known.skip(0) =~= known);
    assert(all.skip(known.len() as int) =~= new);
    if known.len() == 0 {
        assert(c == start);
        assert(all =~= new);
        assert(bytes_text(known) + bytes_text(new) =~= bytes_text(new));
    } else {
        law_pieces_add_up(start, bytes_text(known), bytes_text(new), known.len(), all.len());
    }
}

/// A file that grew is read on from where the last update left off, and the cache ends up as if
/// all of the file had been read at once. The cut between two updates must be clean, as a half
/// character reads as a replacement character.
pub proof fn law_reading_on_is_reading_all<S: LineFold>(c: Tail<S>, known: Seq<u8>, new: Seq<u8>)
    requires
        c.in_step_with(known),
        is_clean_cut(known, new),
    ensures
        c.after_update(known + new) == Tail::<S>::unread(c.path).after_update(known + new),
{
    let all = known + new;
    assert(all.skip(0) =~= all);
    if new.len() == 0 {
        assert(all =~= known);
        assert(known.skip(0) =~= known);
    } else {
        law_reading_on_adds_the_new_text(c, known, new);
    }
}

/// A file that got shorter is read anew: what was gathered before leaves no trace.
pub proof fn law_shorter_file_is_read_anew<S: LineFold>(c: Tail<S>, content: Seq<u8>)
    requires
        content.len() < c.offset,
    ensures
        c.after_update(content) == Tail::<S>::unread(c.path).after_update(content),
{
}

/// A file of the length that has been read changes nothing.
pub proof fn law_nothing_new_changes_nothing<S: LineFold>(c: Tail<S>, content: Seq<u8>)
    requires
        content.len() == c.offset,
    ensures
        c.after_update(content) == (c, true),
{
}

/// A text without a line feed only makes the unfinished line longer. With the line feed that ends
/// it, the line is taken as a whole, once, and a new one begins; a line that cannot be taken leaves
/// what was gathered as it is, and the answer says so.
pub proof fn law_line_is_taken_when_it_ends<S: LineFold>(c: Tail<S>, text: Seq<char>, end: nat)
    requires
        !c.partial.contains('\n'),
        !text.contains('\n'),
    ensures
        c.after_text(text, end) == (Tail { offset: end, partial: c.partial + text, ..c }, true),
        c.after_text(text.push('\n'), end) == (match c.result.step(c.partial + text) {
            Some(next) => (
                Tail { path: c.path, offset: end, partial: Seq::<char>::empty(), result: next },
                true,
            ),
            None => (Tail { offset: end, partial: Seq::<char>::empty(), ..c }, false),
        }),
{
    let none = Seq::<char>::empty();
    let line = c.partial + text;
    assert(!line.contains('\n')) by {
        if line.contains('\n') {
            let i = line.index_of('\n');
            if i < c.partial.len() {
                assert(c.partial[i] == '\n');
            } else {
                assert(text[i - c.partial.len()] == '\n');
            }
        }
    }
    law_line_feeds_end_lines(line, none);
    law_last_character_is_found(line, '\n', line);
    law_last_character_is_found(line, '\n', none);
    let full = c.partial + text.push('\n');
    assert(full =~= line.push('\n') + none);
    assert(full.take(line.len() as int) =~= line);
    if line.len() == 0 {
        assert(line =~= none);
        c.result.empty_line_adds_nothing();
    } else {
        let one = seq![line];
        assert(one.drop_first() =~= Seq::<Seq<char>>::empty());
        if let Some(next) = c.result.step(line) {
            assert(run(next, one.drop_first()) == (next, true));
        }
    }
}

/// The unfinished line holds no line feed, and the path stays.
pub proof fn law_unfinished_line_has_no_line_feed<S: LineFold>(
    c: Tail<S>,
    text: Seq<char>,
    end: nat,
)
    ensures
        !c.after_text(text, end).0.partial.contains('\n'),
        c.after_text(text, end).0.path == c.path,
        c.after_text(text, end).0.offset == end,
        Tail::<S>::unread(c.path) == (Tail {
            path: c.path,
            offset: 0,
            partial: Seq::<char>::empty(),
            result: S::start(),
        }),
{
    let full = c.partial + text;
    lemma_rfind(full, '\n');
    if let Some(i) = rfind(full, '\n') {
        let rest = full.skip(i + 1);
        if rest.contains('\n') {
            let j = rest.index_of('\n');
            assert(full[i + 1 + j] == '\n');
        }
    }
}

/// Lines are taken in order; the first that cannot be taken ends it.
pub proof fn law_lines_are_taken_in_order<S: LineFold>(
    s: S,
    line: Seq<char>,
    later: Seq<Seq<char>>,
)
    ensures
        run(s, Seq::<Seq<char>>::empty()) == (s, true),
        run(s, seq![line] + later) == (match s.step(line) {
            Some(next) => run(next, later),
            None => (s, false),
        }),
{
    assert((seq![line] + later).drop_first() =~= later);
}

/// Bytes move the offset by as many as they are, and read as text; a first reading takes all of a
/// file. A file that got shorter is read from the start, any other from where it was left.
pub proof fn law_offset_counts_bytes<S: LineFold>(c: Tail<S>, bytes: Seq<u8>, n: nat)
    ensures
        c.offset + bytes.len() <= u64::MAX ==> {
            &&& c.after_bytes(bytes) == c.after_text(bytes_text(bytes), c.offset + bytes.len())
            &&& c.after_bytes(bytes).0.offset == c.offset + bytes.len()
        },
        c.offset + bytes.len() > u64::MAX ==> c.after_bytes(bytes) == (c, false),
        bytes.len() > 0 ==> Tail::<S>::unread(c.path).after_update(bytes) == Tail::<S>::unread(
            c.path,
        ).after_text(bytes_text(bytes), bytes.len()),
        n < c.offset ==> c.before_reading(n) == Tail::<S>::unread(c.path),
        n >= c.offset ==> c.before_reading(n) == c,
{
    assert(bytes.skip(0) =~= bytes);
}

/// A cache shows every one of its fields as it is.
pub proof fn law_cache_shows_its_fields<R: LineSink>(cache: TailCache<R>)
    ensures
        cache@.path == cache.path@,
        cache@.offset == cache.offset,
        cache@.partial == cache.partial@,
        cache@.result == cache.result.summary(),
{
}

} // verus!
