//! Character strings: spans of a text, trimming, splitting and building.

use vstd::prelude::*;
use vstd::string::*;

verus! {

broadcast use vstd::string::group_string_axioms;

/// The characters of `text`.
pub fn chars_of(text: &str) -> (chars: Vec<char>)
    ensures
        chars@ == text@,
{
    let mut chars: Vec<char> = Vec::new();
    for c in it: text.chars()
        invariant
            it.seq() == text@,
            chars@ == it.seq().take(it.index() as int),
    {
        chars.push(c);
        assert(chars@ =~= it.seq().take(it.index() + 1));
    }
    assert(text@.take(text@.len() as int) =~= text@);
    chars
}

/// The two texts are the same.
pub fn same_text(a: &str, b: &str) -> (same: bool)
    ensures
        same == (a@ == b@),
{
    let left: Vec<char> = chars_of(a);
    let right: Vec<char> = chars_of(b);
    if left.len() != right.len() {
        return false;
    }
    let mut i: usize = 0;
    while i < left.len()
        invariant
            i <= left@.len(),
            left@ == a@,
            right@ == b@,
            left@.len() == right@.len(),
            left@.take(i as int) == right@.take(i as int),
        decreases left@.len() - i,
    {
        if left[i] != right[i] {
            return false;
        }
        i = i + 1;
        assert(left@.take(i as int) =~= left@.take(i - 1).push(left@[i - 1]));
        assert(right@.take(i as int) =~= right@.take(i - 1).push(right@[i - 1]));
    }
    assert(left@.take(left@.len() as int) =~= left@);
    assert(right@.take(right@.len() as int) =~= right@);
    true
}

/// The Unicode property `White_Space`.
pub open spec fn is_white(c: char) -> bool {
    ||| '\u{9}' <= c <= '\u{d}'
    ||| c == ' '
    ||| c == '\u{85}'
    ||| c == '\u{a0}'
    ||| c == '\u{1680}'
    ||| '\u{2000}' <= c <= '\u{200a}'
    ||| c == '\u{2028}'
    ||| c == '\u{2029}'
    ||| c == '\u{202f}'
    ||| c == '\u{205f}'
    ||| c == '\u{3000}'
}

/// What a trim takes away.
#[derive(Clone, Copy)]
pub enum Strip {
    White,
    Only(char),
}

impl Strip {
    /// The trim takes `c` away.
    pub open spec fn takes(self, c: char) -> bool {
        match self {
            Strip::White => is_white(c),
            Strip::Only(only) => c == only,
        }
    }

    fn hits(&self, c: char) -> (hit: bool)
        ensures
            hit == self.takes(c),
    {
        match self {
            Strip::White => {
                ('\u{9}' <= c && c <= '\u{d}') || c == ' ' || c == '\u{85}' || c == '\u{a0}' || c
                    == '\u{1680}' || ('\u{2000}' <= c && c <= '\u{200a}') || c == '\u{2028}' || c
                    == '\u{2029}' || c == '\u{202f}' || c == '\u{205f}' || c == '\u{3000}'
            },
            Strip::Only(only) => c == *only,
        }
    }
}

/// `s` without the characters at its front that `what` takes.
pub open spec fn strip_front(s: Seq<char>, what: Strip) -> Seq<char>
    decreases s.len(),
{
    if s.len() > 0 && what.takes(s[0]) {
        strip_front(s.drop_first(), what)
    } else {
        s
    }
}

/// `s` without the characters at its back that `what` takes.
pub open spec fn strip_back(s: Seq<char>, what: Strip) -> Seq<char>
    decreases s.len(),
{
    if s.len() > 0 && what.takes(s.last()) {
        strip_back(s.drop_last(), what)
    } else {
        s
    }
}

/// `s` without white space at either end.
pub open spec fn trim(s: Seq<char>) -> Seq<char> {
    strip_back(strip_front(s, Strip::White), Strip::White)
}

/// Where `c` first occurs in `s`; the length of `s` if it does not.
pub open spec fn find(s: Seq<char>, c: char) -> int
    decreases s.len(),
{
    if s.len() == 0 || s[0] == c {
        0
    } else {
        1 + find(s.drop_first(), c)
    }
}

pub proof fn lemma_find(s: Seq<char>, c: char)
    ensures
        0 <= find(s, c) <= s.len(),
        forall|j: int| 0 <= j < find(s, c) ==> s[j] != c,
        find(s, c) < s.len() ==> s[find(s, c)] == c,
    decreases s.len(),
{
    if s.len() > 0 && s[0] != c {
        let rest = s.drop_first();
        lemma_find(rest, c);
        assert forall|j: int| 0 <= j < find(s, c) implies s[j] != c by {
            if j > 0 {
                assert(s[j] == rest[j - 1]);
            }
        }
    }
}

/// Nothing but the first occurrence has the properties of one.
pub proof fn lemma_find_is(s: Seq<char>, c: char, i: int)
    requires
        0 <= i <= s.len(),
        forall|j: int| 0 <= j < i ==> s[j] != c,
        i < s.len() ==> s[i] == c,
    ensures
        find(s, c) == i,
{
    lemma_find(s, c);
}

/// The pieces of `s` between occurrences of `sep`.
pub open spec fn split(s: Seq<char>, sep: char) -> Seq<Seq<char>>
    decreases s.len(),
    via split_decreases
{
    if find(s, sep) == s.len() {
        seq![s]
    } else {
        seq![s.take(find(s, sep))] + split(s.skip(find(s, sep) + 1), sep)
    }
}

#[via_fn]
proof fn split_decreases(s: Seq<char>, sep: char) {
    lemma_find(s, sep);
}

/// A text is split into at least one piece, and into two at least if it holds
/// the separator.
pub proof fn lemma_split_pieces(s: Seq<char>, sep: char)
    ensures
        split(s, sep).len() >= 1,
        find(s, sep) < s.len() ==> split(s, sep).len() >= 2,
    decreases s.len(),
{
    lemma_find(s, sep);
    if find(s, sep) < s.len() {
        lemma_split_pieces(s.skip(find(s, sep) + 1), sep);
    }
}

/// `s` without one carriage return at its end.
pub open spec fn chomp(s: Seq<char>) -> Seq<char> {
    if s.len() > 0 && s.last() == '\r' {
        s.drop_last()
    } else {
        s
    }
}

/// The lines of `s`: each ends at a line feed, or at a carriage return and a
/// line feed, or with the text; an empty last line is none.
pub open spec fn lines(s: Seq<char>) -> Seq<Seq<char>>
    decreases s.len(),
    via lines_decreases
{
    if s.len() == 0 {
        seq![]
    } else if find(s, '\n') == s.len() {
        seq![s]
    } else {
        seq![chomp(s.take(find(s, '\n')))] + lines(s.skip(find(s, '\n') + 1))
    }
}

#[via_fn]
proof fn lines_decreases(s: Seq<char>) {
    lemma_find(s, '\n');
}

/// A text is split first at the first separator.
pub proof fn lemma_split_first(head: Seq<char>, sep: char, rest: Seq<char>)
    requires
        forall|i: int| 0 <= i < head.len() ==> head[i] != sep,
    ensures
        split(head.push(sep) + rest, sep) == seq![head] + split(rest, sep),
{
    let s = head.push(sep) + rest;
    let at = head.len() as int;
    assert(s[at] == sep);
    assert(forall|j: int| 0 <= j < at ==> s[j] == head[j]);
    lemma_find_is(s, sep, at);
    assert(s.take(at) =~= head);
    assert(s.skip(at + 1) =~= rest);
}

/// A text without the separator is one piece.
pub proof fn lemma_split_none(s: Seq<char>, sep: char)
    requires
        forall|i: int| 0 <= i < s.len() ==> s[i] != sep,
    ensures
        split(s, sep) == seq![s],
{
    lemma_find_is(s, sep, s.len() as int);
}

/// The first line ends at the first line feed, or with the text.
pub proof fn lemma_first_line(line: Seq<char>, rest: Seq<char>)
    requires
        line.len() > 0,
        line.last() != '\r',
        forall|i: int| 0 <= i < line.len() ==> line[i] != '\n',
        rest.len() == 0 || rest[0] == '\n',
    ensures
        lines(line + rest).len() > 0,
        lines(line + rest)[0] == line,
{
    let s = line + rest;
    let at = line.len() as int;
    assert(forall|j: int| 0 <= j < at ==> s[j] == line[j]);
    if rest.len() > 0 {
        assert(s[at] == '\n');
    }
    lemma_find_is(s, '\n', at);
    if rest.len() > 0 {
        assert(s.take(at) =~= line);
    } else {
        assert(s =~= line);
    }
}

/// Trimming takes away the spaces before a text, and no more of it if it neither
/// starts nor ends with white space.
pub proof fn lemma_trim_spaces(spaces: nat, s: Seq<char>)
    requires
        s.len() > 0,
        !is_white(s[0]),
        !is_white(s.last()),
    ensures
        trim(crate::number::fill(' ', spaces as int) + s) == s,
    decreases spaces,
{
    let padded = crate::number::fill(' ', spaces as int) + s;
    if spaces == 0 {
        assert(padded =~= s);
    } else {
        lemma_trim_spaces((spaces - 1) as nat, s);
        assert(padded[0] == ' ');
        assert(padded.drop_first() =~= crate::number::fill(' ', spaces - 1) + s);
    }
}

/// `part` occurs in `s`.
pub open spec fn holds(s: Seq<char>, part: Seq<char>) -> bool {
    exists|i: int|
        0 <= i && i + part.len() <= s.len() && #[trigger] s.subrange(i, i + part.len()) == part
}

/// A stretch of a text, by character positions.
#[derive(Clone, Copy)]
pub struct Span {
    pub start: usize,
    pub end: usize,
}

impl Span {
    pub open spec fn within(self, text: Seq<char>) -> bool {
        self.start <= self.end <= text.len()
    }

    /// The characters of `text` in this span.
    pub open spec fn of(self, text: Seq<char>) -> Seq<char> {
        text.subrange(self.start as int, self.end as int)
    }

    /// This span without the characters at its front that `what` takes.
    pub fn strip_front(self, chars: &Vec<char>, what: Strip) -> (rest: Span)
        requires
            self.within(chars@),
        ensures
            rest.within(chars@),
            rest.of(chars@) == strip_front(self.of(chars@), what),
    {
        let mut span: Span = self;
        while span.start < span.end && what.hits(chars[span.start])
            invariant
                span.within(chars@),
                self.within(chars@),
                span.end == self.end,
                strip_front(span.of(chars@), what) == strip_front(self.of(chars@), what),
            decreases span.end - span.start,
        {
            proof {
                let next = Span { start: (span.start + 1) as usize, end: span.end };
                assert(span.of(chars@).drop_first() =~= next.of(chars@));
            }
            span = Span { start: span.start + 1, end: span.end };
        }
        span
    }

    /// This span without the characters at its back that `what` takes.
    pub fn strip_back(self, chars: &Vec<char>, what: Strip) -> (rest: Span)
        requires
            self.within(chars@),
        ensures
            rest.within(chars@),
            rest.of(chars@) == strip_back(self.of(chars@), what),
    {
        let mut span: Span = self;
        while span.start < span.end && what.hits(chars[span.end - 1])
            invariant
                span.within(chars@),
                self.within(chars@),
                span.start == self.start,
                strip_back(span.of(chars@), what) == strip_back(self.of(chars@), what),
            decreases span.end - span.start,
        {
            proof {
                let next = Span { start: span.start, end: (span.end - 1) as usize };
                assert(span.of(chars@).drop_last() =~= next.of(chars@));
            }
            span = Span { start: span.start, end: span.end - 1 };
        }
        span
    }

    /// This span without white space at either end.
    pub fn trim(self, chars: &Vec<char>) -> (rest: Span)
        requires
            self.within(chars@),
        ensures
            rest.within(chars@),
            rest.of(chars@) == trim(self.of(chars@)),
    {
        self.strip_front(chars, Strip::White).strip_back(chars, Strip::White)
    }

    /// The text in this span starts with `prefix`.
    pub fn starts_with(self, chars: &Vec<char>, prefix: &str) -> (yes: bool)
        requires
            self.within(chars@),
        ensures
            yes == prefix@.is_prefix_of(self.of(chars@)),
    {
        let part: Vec<char> = chars_of(prefix);
        if part.len() > self.end - self.start {
            return false;
        }
        self.matches_at(chars, &part, 0)
    }

    /// The text in this span ends with `suffix`.
    pub fn ends_with(self, chars: &Vec<char>, suffix: &str) -> (yes: bool)
        requires
            self.within(chars@),
        ensures
            yes == suffix@.is_suffix_of(self.of(chars@)),
    {
        let part: Vec<char> = chars_of(suffix);
        if part.len() > self.end - self.start {
            return false;
        }
        let at: usize = self.end - self.start - part.len();
        let yes: bool = self.matches_at(chars, &part, at);
        assert(self.of(chars@).subrange(
            at as int,
            self.of(chars@).len() as int,
        ) =~= self.of(chars@).subrange(at as int, at + part@.len()));
        yes
    }

    fn matches_at(self, chars: &Vec<char>, part: &Vec<char>, at: usize) -> (yes: bool)
        requires
            self.within(chars@),
            at + part@.len() <= self.end - self.start,
        ensures
            yes == (self.of(chars@).subrange(at as int, at + part@.len()) == part@),
    {
        let ghost here = self.of(chars@).subrange(at as int, at + part@.len());
        let mut i: usize = 0;
        while i < part.len()
            invariant
                i <= part@.len(),
                self.within(chars@),
                at + part@.len() <= self.end - self.start,
                here == self.of(chars@).subrange(at as int, at + part@.len()),
                forall|j: int| 0 <= j < i ==> here[j] == part@[j],
            decreases part@.len() - i,
        {
            assert(here[i as int] == chars@[self.start + at + i]);
            if chars[self.start + at + i] != part[i] {
                return false;
            }
            i = i + 1;
        }
        assert(here =~= part@);
        true
    }

    /// `part` occurs in the text of this span.
    pub fn holds(self, chars: &Vec<char>, part: &str) -> (yes: bool)
        requires
            self.within(chars@),
        ensures
            yes == holds(self.of(chars@), part@),
    {
        let part_chars: Vec<char> = chars_of(part);
        let len: usize = self.end - self.start;
        if part_chars.len() > len {
            return false;
        }
        let last: usize = len - part_chars.len();
        let mut at: usize = 0;
        while at < last
            invariant
                self.within(chars@),
                part_chars@ == part@,
                at <= last,
                last + part_chars@.len() == self.end - self.start,
                forall|i: int|
                    0 <= i < at ==> #[trigger] self.of(chars@).subrange(i, i + part@.len())
                        != part@,
            decreases last - at,
        {
            if self.matches_at(chars, &part_chars, at) {
                return true;
            }
            at = at + 1;
        }
        self.matches_at(chars, &part_chars, last)
    }

    /// Where `c` first occurs in the text of this span, counted from its start.
    pub fn find(self, chars: &Vec<char>, c: char) -> (at: usize)
        requires
            self.within(chars@),
        ensures
            at as int == find(self.of(chars@), c),
            at <= self.end - self.start,
    {
        let mut i: usize = self.start;
        while i < self.end && chars[i] != c
            invariant
                self.within(chars@),
                self.start <= i <= self.end,
                forall|j: int| 0 <= j < i - self.start ==> self.of(chars@)[j] != c,
            decreases self.end - i,
        {
            assert(self.of(chars@)[i - self.start] == chars@[i as int]);
            i = i + 1;
        }
        proof {
            lemma_find_is(self.of(chars@), c, i - self.start);
        }
        i - self.start
    }

    /// The pieces of this span between occurrences of `sep`.
    pub fn split(self, chars: &Vec<char>, sep: char) -> (pieces: Vec<Span>)
        requires
            self.within(chars@),
        ensures
            spans_are(pieces@, chars@, split(self.of(chars@), sep)),
    {
        let mut pieces: Vec<Span> = Vec::new();
        let mut rest: Span = self;
        let mut more: bool = true;
        let ghost whole = split(self.of(chars@), sep);
        let ghost mut done = Seq::<Seq<char>>::empty();
        assert(done + split(rest.of(chars@), sep) =~= whole);
        while more
            invariant
                rest.within(chars@),
                spans_are(pieces@, chars@, done),
                more ==> done + split(rest.of(chars@), sep) == whole,
                !more ==> done == whole,
            decreases
                rest.end - rest.start + (if more {
                    1int
                } else {
                    0int
                }),
        {
            let at: usize = rest.find(chars, sep);
            let cut: usize = rest.start + at;
            if cut == rest.end {
                pieces.push(rest);
                proof {
                    done = done.push(rest.of(chars@));
                    assert(done =~= whole);
                }
                more = false;
            } else {
                let piece: Span = Span { start: rest.start, end: cut };
                let next: Span = Span { start: cut + 1, end: rest.end };
                pieces.push(piece);
                proof {
                    assert(piece.of(chars@) =~= rest.of(chars@).take(at as int));
                    assert(next.of(chars@) =~= rest.of(chars@).skip(at + 1));
                    done = done.push(piece.of(chars@));
                    assert(done + split(next.of(chars@), sep) =~= whole);
                }
                rest = next;
            }
        }
        pieces
    }
}

/// `spans` cut the pieces `pieces` out of `text`.
pub open spec fn spans_are(spans: Seq<Span>, text: Seq<char>, pieces: Seq<Seq<char>>) -> bool {
    &&& spans.len() == pieces.len()
    &&& forall|i: int|
        0 <= i < spans.len() ==> (#[trigger] spans[i]).within(text) && spans[i].of(text)
            == pieces[i]
}

/// The lines of `chars`.
pub fn line_spans(chars: &Vec<char>) -> (spans: Vec<Span>)
    ensures
        spans_are(spans@, chars@, lines(chars@)),
{
    let mut spans: Vec<Span> = Vec::new();
    let mut rest: Span = Span { start: 0, end: chars.len() };
    let ghost whole = lines(chars@);
    let ghost mut done = Seq::<Seq<char>>::empty();
    proof {
        assert(rest.of(chars@) =~= chars@);
        assert(done + lines(rest.of(chars@)) =~= whole);
    }
    while rest.start < rest.end
        invariant
            rest.within(chars@),
            rest.end == chars@.len(),
            spans_are(spans@, chars@, done),
            done + lines(rest.of(chars@)) == whole,
        decreases rest.end - rest.start,
    {
        let at: usize = rest.find(chars, '\n');
        let cut: usize = rest.start + at;
        if cut == rest.end {
            spans.push(rest);
            let next: Span = Span { start: rest.end, end: rest.end };
            proof {
                done = done.push(rest.of(chars@));
                assert(next.of(chars@).len() == 0);
                assert(done + lines(next.of(chars@)) =~= whole);
            }
            rest = next;
        } else {
            let next: Span = Span { start: cut + 1, end: rest.end };
            let mut line: Span = Span { start: rest.start, end: cut };
            let ghost raw = line.of(chars@);
            if cut > rest.start && chars[cut - 1] == '\r' {
                line = Span { start: rest.start, end: cut - 1 };
                assert(line.of(chars@) =~= raw.drop_last());
            }
            spans.push(line);
            proof {
                assert(raw =~= rest.of(chars@).take(at as int));
                assert(line.of(chars@) == chomp(raw));
                assert(next.of(chars@) =~= rest.of(chars@).skip(at + 1));
                done = done.push(line.of(chars@));
                assert(done + lines(next.of(chars@)) =~= whole);
            }
            rest = next;
        }
    }
    proof {
        assert(rest.of(chars@).len() == 0);
        assert(done + lines(rest.of(chars@)) =~= done);
    }
    spans
}

/// Trimming takes white space off the two ends of a text, and all of it: gives what
/// it takes off.
pub proof fn trimming_takes_white_space(s: Seq<char>) -> (ends: (Seq<char>, Seq<char>))
    ensures
        s == ends.0 + trim(s) + ends.1,
        forall|i: int| 0 <= i < ends.0.len() ==> is_white(#[trigger] ends.0[i]),
        forall|i: int| 0 <= i < ends.1.len() ==> is_white(#[trigger] ends.1[i]),
        trim(s).len() > 0 ==> !is_white(trim(s)[0]) && !is_white(trim(s).last()),
{
    let front = lemma_strip_front(s, Strip::White);
    let middle = strip_front(s, Strip::White);
    let back = lemma_strip_back(middle, Strip::White);
    assert(s =~= front + trim(s) + back);
    if trim(s).len() > 0 {
        assert(middle[0] == trim(s)[0]);
    }
    (front, back)
}

/// What is stripped off the front of a text is what `what` takes, and all of it.
pub proof fn lemma_strip_front(s: Seq<char>, what: Strip) -> (gone: Seq<char>)
    ensures
        s == gone + strip_front(s, what),
        forall|i: int| 0 <= i < gone.len() ==> what.takes(#[trigger] gone[i]),
        strip_front(s, what).len() > 0 ==> !what.takes(strip_front(s, what)[0]),
    decreases s.len(),
{
    if s.len() > 0 && what.takes(s[0]) {
        let rest = lemma_strip_front(s.drop_first(), what);
        let gone = seq![s[0]] + rest;
        assert(s =~= seq![s[0]] + s.drop_first());
        assert(s =~= gone + strip_front(s, what));
        gone
    } else {
        assert(s =~= Seq::<char>::empty() + s);
        seq![]
    }
}

/// What is stripped off the back of a text is what `what` takes, and all of it.
pub proof fn lemma_strip_back(s: Seq<char>, what: Strip) -> (gone: Seq<char>)
    ensures
        s == strip_back(s, what) + gone,
        forall|i: int| 0 <= i < gone.len() ==> what.takes(#[trigger] gone[i]),
        strip_back(s, what).len() > 0 ==> !what.takes(strip_back(s, what).last()),
    decreases s.len(),
{
    if s.len() > 0 && what.takes(s.last()) {
        let rest = lemma_strip_back(s.drop_last(), what);
        let gone = rest.push(s.last());
        assert(s =~= s.drop_last().push(s.last()));
        assert(s =~= strip_back(s, what) + gone);
        gone
    } else {
        assert(s =~= s + Seq::<char>::empty());
        seq![]
    }
}

/// `pieces` with `sep` between them.
pub open spec fn together(pieces: Seq<Seq<char>>, sep: char) -> Seq<char>
    decreases pieces.len(),
{
    if pieces.len() == 0 {
        seq![]
    } else if pieces.len() == 1 {
        pieces[0]
    } else {
        pieces[0].push(sep) + together(pieces.drop_first(), sep)
    }
}

/// The pieces of a text hold no separator, and make up the text again.
pub proof fn split_pieces_make_up_the_text(s: Seq<char>, sep: char)
    ensures
        together(split(s, sep), sep) == s,
        forall|i: int, j: int|
            0 <= i < split(s, sep).len() && 0 <= j < split(s, sep)[i].len() ==> #[trigger] split(
                s,
                sep,
            )[i][j] != sep,
    decreases s.len(),
{
    lemma_find(s, sep);
    let at = find(s, sep);
    if at < s.len() {
        let head = s.take(at);
        let rest = s.skip(at + 1);
        lemma_split_pieces(rest, sep);
        split_pieces_make_up_the_text(rest, sep);
        assert(split(s, sep).drop_first() =~= split(rest, sep));
        assert(s =~= head.push(sep) + rest);
        assert forall|i: int, j: int|
            0 <= i < split(s, sep).len() && 0 <= j < split(s, sep)[i].len() implies #[trigger] split(
            s,
            sep,
        )[i][j] != sep by {
            if i > 0 {
                assert(split(s, sep)[i] == split(rest, sep)[i - 1]);
                assert(split(rest, sep)[i - 1][j] != sep);
            } else {
                assert(split(s, sep)[0] == head);
            }
        }
    }
}

/// A text that is empty has no lines; one without a line feed is its only line; and
/// what stands before a line feed comes before the lines behind it, without the
/// carriage return that it may end in.
pub proof fn lines_end_at_line_feeds(line: Seq<char>, rest: Seq<char>)
    requires
        forall|i: int| 0 <= i < line.len() ==> line[i] != '\n',
    ensures
        lines(seq![]) == Seq::<Seq<char>>::empty(),
        line.len() > 0 ==> lines(line) == seq![line],
        line.len() == 0 || line.last() != '\r' ==> lines(line.push('\n') + rest) == seq![line]
            + lines(rest),
        lines(line.push('\r').push('\n') + rest) == seq![line] + lines(rest),
{
    lemma_find_is(line, '\n', line.len() as int);
    lemma_line_feed(line, rest);
    let ended = line.push('\r');
    lemma_line_feed(ended, rest);
    assert(ended.drop_last() =~= line);
}

proof fn lemma_line_feed(line: Seq<char>, rest: Seq<char>)
    requires
        forall|i: int| 0 <= i < line.len() ==> line[i] != '\n',
    ensures
        lines(line.push('\n') + rest) == seq![chomp(line)] + lines(rest),
{
    let s = line.push('\n') + rest;
    let at = line.len() as int;
    assert(s[at] == '\n');
    assert(forall|j: int| 0 <= j < at ==> s[j] == line[j]);
    lemma_find_is(s, '\n', at);
    assert(s.take(at) =~= line);
    assert(s.skip(at + 1) =~= rest);
}

/// The lines of two texts one after the other, of which the first ends in a line
/// feed, are those of the first and those of the second.
pub proof fn lines_follow_lines(before: Seq<char>, rest: Seq<char>)
    requires
        before.len() == 0 || before.last() == '\n',
    ensures
        lines(before + rest) == lines(before) + lines(rest),
    decreases before.len(),
{
    if before.len() == 0 {
        assert(before + rest =~= rest);
        assert(lines(before) + lines(rest) =~= lines(rest));
    } else {
        lemma_find(before, '\n');
        let at = find(before, '\n');
        if at == before.len() {
            assert(before[before.len() - 1] != '\n');
        }
        let line = before.take(at);
        let more = before.skip(at + 1);
        assert(before =~= line.push('\n') + more);
        assert(before + rest =~= line.push('\n') + (more + rest));
        if more.len() > 0 {
            assert(more.last() == before.last());
        }
        lines_follow_lines(more, rest);
        lemma_line_feed(line, more);
        lemma_line_feed(line, more + rest);
        assert(lines(before + rest) =~= lines(before) + lines(rest));
    }
}

/// A text holds what stands anywhere in it, and nothing else.
pub proof fn text_holds_its_parts(a: Seq<char>, part: Seq<char>, b: Seq<char>, s: Seq<char>)
    ensures
        holds(a + part + b, part),
        holds(s, part) ==> exists|i: int|
            0 <= i && i + part.len() <= s.len() && s == #[trigger] s.take(i) + part + s.skip(
                i + part.len(),
            ),
{
    let whole = a + part + b;
    let at = a.len() as int;
    assert(whole.subrange(at, at + part.len()) =~= part);
    if holds(s, part) {
        let i = choose|i: int|
            0 <= i && i + part.len() <= s.len() && #[trigger] s.subrange(i, i + part.len()) == part;
        assert(s =~= s.take(i) + s.subrange(i, i + part.len()) + s.skip(i + part.len()));
    }
}

/// White space are the twenty-five characters with these numbers. Trimming takes such a
/// one off either end of a text, and leaves every other one where it is.
pub proof fn white_space_is_trimmed(c: char, s: Seq<char>)
    ensures
        ({
            let n = c as int;
            let white = seq![
                0x9int, 0xa, 0xb, 0xc, 0xd, 0x20, 0x85, 0xa0, 0x1680, 0x2000, 0x2001, 0x2002,
                0x2003, 0x2004, 0x2005, 0x2006, 0x2007, 0x2008, 0x2009, 0x200a, 0x2028, 0x2029,
                0x202f, 0x205f, 0x3000,
            ];
            &&& white.contains(n) ==> trim(seq![c] + s) == trim(s) && trim(s.push(c)) == trim(s)
            &&& !white.contains(n) ==> trim(seq![c] + s + seq![c]) == seq![c] + s + seq![c]
        }),
{
    let n = c as int;
    let white = seq![
        0x9int, 0xa, 0xb, 0xc, 0xd, 0x20, 0x85, 0xa0, 0x1680, 0x2000, 0x2001, 0x2002, 0x2003,
        0x2004, 0x2005, 0x2006, 0x2007, 0x2008, 0x2009, 0x200a, 0x2028, 0x2029, 0x202f, 0x205f,
        0x3000,
    ];
    if is_white(c) {
        lemma_white_number(c, white);
        let front = seq![c] + s;
        assert(front[0] == c);
        assert(front.drop_first() =~= s);
        lemma_trim_behind(s, c);
    } else {
        if white.contains(n) {
            let i = choose|i: int| 0 <= i < white.len() && white[i] == n;
            assert(is_white(c));
        }
        let both = seq![c] + s + seq![c];
        assert(both[0] == c && both.last() == c);
    }
}

proof fn lemma_white_number(c: char, white: Seq<int>)
    requires
        is_white(c),
        white == seq![
            0x9int, 0xa, 0xb, 0xc, 0xd, 0x20, 0x85, 0xa0, 0x1680, 0x2000, 0x2001, 0x2002, 0x2003,
            0x2004, 0x2005, 0x2006, 0x2007, 0x2008, 0x2009, 0x200a, 0x2028, 0x2029, 0x202f,
            0x205f, 0x3000,
        ],
    ensures
        white.contains(c as int),
{
    let n = c as int;
    let i: int = if n <= 0xd {
        n - 0x9
    } else if n == 0x20 {
        5
    } else if n == 0x85 {
        6
    } else if n == 0xa0 {
        7
    } else if n == 0x1680 {
        8
    } else if n <= 0x200a {
        9 + (n - 0x2000)
    } else if n == 0x2028 {
        20
    } else if n == 0x2029 {
        21
    } else if n == 0x202f {
        22
    } else if n == 0x205f {
        23
    } else {
        24
    };
    assert(white[i] == n);
}

proof fn lemma_trim_behind(s: Seq<char>, c: char)
    requires
        is_white(c),
    ensures
        trim(s.push(c)) == trim(s),
    decreases s.len(),
{
    let more = s.push(c);
    if s.len() == 0 {
        assert(more.drop_first() =~= s);
    } else if is_white(s[0]) {
        assert(more[0] == s[0]);
        assert(more.drop_first() =~= s.drop_first().push(c));
        lemma_trim_behind(s.drop_first(), c);
    } else {
        assert(more[0] == s[0]);
        assert(more.last() == c);
        assert(more.drop_last() =~= s);
    }
}

} // verus!
