//! Splitting a string into tokens.
//!
//! Four splitters are provided. All of them skip whitespace; they differ in
//! how a run of "special" characters (anything that is neither an ASCII
//! letter or digit nor whitespace) is cut, or in which characters delimit.

use vstd::prelude::*;
use vstd::string::StrSliceExecFns;

verus! {

/// The ASCII letters and digits.
pub open spec fn ascii_alphanumeric(c: char) -> bool {
    (48 <= c as u32 && c as u32 <= 57) || (65 <= c as u32 && c as u32 <= 90) || (97 <= c as u32
        && c as u32 <= 122)
}

/// The characters with the Unicode `White_Space` property: the ASCII
/// whitespace characters, NEL, NBSP, ogham space mark, the typographic
/// spaces, the line and paragraph separators, the narrow and medium
/// no-break spaces, and the ideographic space.
pub open spec fn white_space(c: char) -> bool {
    (9 <= c as u32 && c as u32 <= 13) || c as u32 == 32 || c as u32 == 0x85 || c as u32 == 0xA0
        || c as u32 == 0x1680 || (0x2000 <= c as u32 && c as u32 <= 0x200A) || c as u32 == 0x2028
        || c as u32 == 0x2029 || c as u32 == 0x202F || c as u32 == 0x205F || c as u32 == 0x3000
}

/// The ASCII whitespace characters: space, tab, line feed, form feed and
/// carriage return.
pub open spec fn ascii_white_space(c: char) -> bool {
    c as u32 == 32 || c as u32 == 9 || c as u32 == 10 || c as u32 == 12 || c as u32 == 13
}

/// A character is special when it is neither ASCII alphanumeric nor
/// whitespace.
pub open spec fn special(c: char) -> bool {
    !ascii_alphanumeric(c) && !white_space(c)
}

fn char_is_ascii_alphanumeric(c: char) -> (r: bool)
    ensures
        r == ascii_alphanumeric(c),
{
    let u = c as u32;
    (48 <= u && u <= 57) || (65 <= u && u <= 90) || (97 <= u && u <= 122)
}

fn char_is_white_space(c: char) -> (r: bool)
    ensures
        r == white_space(c),
{
    let u = c as u32;
    (9 <= u && u <= 13) || u == 32 || u == 0x85 || u == 0xA0 || u == 0x1680 || (0x2000 <= u && u
        <= 0x200A) || u == 0x2028 || u == 0x2029 || u == 0x202F || u == 0x205F || u == 0x3000
}

fn char_is_ascii_white_space(c: char) -> (r: bool)
    ensures
        r == ascii_white_space(c),
{
    let u = c as u32;
    u == 32 || u == 9 || u == 10 || u == 12 || u == 13
}

/// Decides whether a character is special: not an ASCII letter or digit and
/// not whitespace. Splitters cut words at such characters.
pub fn is_special(c: char) -> (r: bool)
    ensures
        r == special(c),
{
    !char_is_ascii_alphanumeric(c) && !char_is_white_space(c)
}

/// The first index at or after `from` whose character satisfies `p`, or the
/// length of `s` when no such index exists.
pub open spec fn seek(s: Seq<char>, from: int, p: spec_fn(char) -> bool) -> int
    decreases s.len() - from
        when 0 <= from <= s.len()
{
    if from >= s.len() {
        s.len() as int
    } else if p(s[from]) {
        from
    } else {
        seek(s, from + 1, p)
    }
}

/// What `seek` returns: an index between `from` and the length, such that
/// `p` fails strictly before it and holds at it unless the end was reached.
pub proof fn lemma_seek(s: Seq<char>, from: int, p: spec_fn(char) -> bool)
    requires
        0 <= from <= s.len(),
    ensures
        from <= seek(s, from, p) <= s.len(),
        forall|j: int| from <= j < seek(s, from, p) ==> !p(s[j]),
        seek(s, from, p) < s.len() ==> p(s[seek(s, from, p)]),
    decreases s.len() - from,
{
    if from < s.len() && !p(s[from]) {
        lemma_seek(s, from + 1, p);
    }
}

/// `seek` lands on `i` exactly when `p` fails on `[from, i)` and holds at
/// `i`, unless `i` is the end.
pub proof fn lemma_seek_is(s: Seq<char>, from: int, i: int, p: spec_fn(char) -> bool)
    requires
        0 <= from <= i <= s.len(),
        forall|j: int| from <= j < i ==> !p(s[j]),
        i < s.len() ==> p(s[i]),
    ensures
        seek(s, from, p) == i,
    decreases i - from,
{
    if from < i {
        lemma_seek_is(s, from + 1, i, p);
    }
}

/// Characters that end a skip run: anything that is not whitespace.
pub open spec fn not_white_space() -> spec_fn(char) -> bool {
    |c: char| !white_space(c)
}

/// Characters that end a skip run for the per-character splitter: anything
/// that is not ASCII whitespace.
pub open spec fn not_ascii_white_space() -> spec_fn(char) -> bool {
    |c: char| !ascii_white_space(c)
}

/// Characters that end a word: special characters and whitespace.
pub open spec fn special_or_white_space() -> spec_fn(char) -> bool {
    |c: char| special(c) || white_space(c)
}

/// Characters that end a clump of special characters.
pub open spec fn not_special() -> spec_fn(char) -> bool {
    |c: char| !special(c)
}

/// Characters that end a token of the custom splitter: its delimiters.
pub open spec fn in_delims(delims: Seq<char>) -> spec_fn(char) -> bool {
    |c: char| delims.contains(c)
}

/// Characters that start a token of the custom splitter: everything else.
pub open spec fn not_in_delims(delims: Seq<char>) -> spec_fn(char) -> bool {
    |c: char| !delims.contains(c)
}

/// Which characters a splitter of the given kind skips is decided here: the
/// next token starts at the first character that is not skipped. Kind 1
/// divides at special characters, kind 2 clumps them, kind 3 returns single
/// characters, kind 4 divides at the given delimiters.
pub open spec fn token_start(kind: int, delims: Seq<char>, s: Seq<char>, from: int) -> int {
    if kind == 3 {
        seek(s, from, not_ascii_white_space())
    } else if kind == 4 {
        seek(s, from, not_in_delims(delims))
    } else {
        seek(s, from, not_white_space())
    }
}

/// Where the token that starts at `start` ends, for each splitter kind.
pub open spec fn token_end(kind: int, delims: Seq<char>, s: Seq<char>, start: int) -> int {
    if kind == 1 {
        if special(s[start]) {
            start + 1
        } else {
            seek(s, start, special_or_white_space())
        }
    } else if kind == 2 {
        if special(s[start]) {
            seek(s, start, not_special())
        } else {
            seek(s, start, special_or_white_space())
        }
    } else if kind == 3 {
        start + 1
    } else {
        seek(s, start, in_delims(delims))
    }
}

/// A token never ends where it starts, and it ends within the string.
pub proof fn lemma_token_bounds(kind: int, delims: Seq<char>, s: Seq<char>, from: int)
    requires
        1 <= kind <= 4,
        0 <= from <= s.len(),
        token_start(kind, delims, s, from) < s.len(),
    ensures
        from <= token_start(kind, delims, s, from),
        token_start(kind, delims, s, from) < token_end(
            kind,
            delims,
            s,
            token_start(kind, delims, s, from),
        ) <= s.len(),
{
    let start = token_start(kind, delims, s, from);
    if kind == 3 {
        lemma_seek(s, from, not_ascii_white_space());
        assert((not_ascii_white_space())(s[start]));
    } else if kind == 4 {
        lemma_seek(s, from, not_in_delims(delims));
        assert((not_in_delims(delims))(s[start]));
        let end = token_end(kind, delims, s, start);
        lemma_seek(s, start, in_delims(delims));
        if end == start {
            assert((in_delims(delims))(s[start]));
            assert(false);
        }
    } else {
        lemma_seek(s, from, not_white_space());
        assert((not_white_space())(s[start]));
        let end = token_end(kind, delims, s, start);
        if kind == 2 && special(s[start]) {
            lemma_seek(s, start, not_special());
            if end == start {
                assert((not_special())(s[start]));
                assert(false);
            }
        } else if !special(s[start]) {
            lemma_seek(s, start, special_or_white_space());
            if end == start {
                assert((special_or_white_space())(s[start]));
                assert(false);
            }
        }
    }
}

/// The tokens that a splitter of the given kind yields from position `from`
/// to the end of the string, in order.
pub open spec fn split_from(kind: int, delims: Seq<char>, s: Seq<char>, from: int) -> Seq<
    Seq<char>,
>
    decreases s.len() - from
        when 0 <= from <= s.len() && 1 <= kind <= 4
        via split_from_decreases
{
    let start = token_start(kind, delims, s, from);
    if start >= s.len() {
        Seq::empty()
    } else {
        let end = token_end(kind, delims, s, start);
        seq![s.subrange(start, end)] + split_from(kind, delims, s, end)
    }
}

#[via_fn]
proof fn split_from_decreases(kind: int, delims: Seq<char>, s: Seq<char>, from: int) {
    let start = token_start(kind, delims, s, from);
    if start < s.len() {
        lemma_token_bounds(kind, delims, s, from);
    }
}

/// A token starts at or after the position it is sought from, and within the
/// string or just past its end.
pub proof fn lemma_token_start_bounds(kind: int, delims: Seq<char>, s: Seq<char>, from: int)
    requires
        1 <= kind <= 4,
        0 <= from <= s.len(),
    ensures
        from <= token_start(kind, delims, s, from) <= s.len(),
{
    if kind == 3 {
        lemma_seek(s, from, not_ascii_white_space());
    } else if kind == 4 {
        lemma_seek(s, from, not_in_delims(delims));
    } else {
        lemma_seek(s, from, not_white_space());
    }
}

/// Splits at whitespace and at every special character; each special
/// character is a token of its own, and a maximal run of ordinary
/// characters is a word token.
pub struct SpecialStr<'a> {
    string: &'a str,
    front: usize,
}

impl<'a> SpecialStr<'a> {
    /// The characters being split.
    pub closed spec fn text(self) -> Seq<char> {
        self.string@
    }

    /// The character position the next token is sought from.
    pub closed spec fn pos(self) -> int {
        self.front as int
    }

    /// The position always lies within the text.
    pub open spec fn wf(self) -> bool {
        0 <= self.pos() <= self.text().len()
    }

    pub fn new(input: &'a str) -> (r: Self)
        ensures
            r.text() == input@,
            r.pos() == 0,
            r.wf(),
    {
        SpecialStr { string: input, front: 0 }
    }

    /// Yields the next token: the next special character alone, or the next
    /// maximal word; whitespace is skipped. Returns `None` when only
    /// whitespace is left.
    pub fn next(&mut self) -> (r: Option<&'a str>)
        requires
            old(self).wf(),
        ensures
            final(self).wf(),
            final(self).text() == old(self).text(),
            ({
                let s = old(self).text();
                let start = token_start(1, Seq::empty(), s, old(self).pos());
                if start == s.len() {
                    &&& r is None
                    &&& final(self).pos() == old(self).pos()
                } else {
                    &&& r matches Some(t) && t@ == s.subrange(
                        start,
                        token_end(1, Seq::empty(), s, start),
                    )
                    &&& final(self).pos() == token_end(1, Seq::empty(), s, start)
                }
            }),
    {
        let text = self.string;
        let ghost s = text@;
        let ghost from = self.front as int;
        let n = text.unicode_len();
        let mut i: usize = self.front;
        while i < n
            invariant
                from <= i as int <= n as int,
                n as nat == s.len(),
                text@ == s,
                forall|j: int| from <= j < i as int ==> white_space(s[j]),
            ensures
                from <= i as int <= n as int,
                forall|j: int| from <= j < i as int ==> white_space(s[j]),
                (i as int) < n as int ==> !white_space(s[i as int]),
            decreases n - i,
        {
            let c = text.get_char(i);
            if !char_is_white_space(c) {
                break ;
            }
            i += 1;
        }
        proof {
            assert forall|j: int| from <= j < i as int implies !((not_white_space())(
                s[j],
            )) by {
                assert(white_space(s[j]));
            }
            if (i as int) < n as int {
                assert((not_white_space())(s[i as int]));
            }
            lemma_seek_is(s, from, i as int, not_white_space());
        }
        if i == n {
            return None;
        }
        let c = text.get_char(i);
        if is_special(c) {
            let tok = text.substring_char(i, i + 1);
            self.front = i + 1;
            return Some(tok);
        }
        let mut j: usize = i;
        while j < n
            invariant
                i as int <= j as int <= n as int,
                n as nat == s.len(),
                text@ == s,
                forall|k: int| i as int <= k < j as int ==> !special(s[k]) && !white_space(s[k]),
            ensures
                i as int <= j as int <= n as int,
                forall|k: int| i as int <= k < j as int ==> !special(s[k]) && !white_space(s[k]),
                (j as int) < n as int ==> special(s[j as int]) || white_space(s[j as int]),
            decreases n - j,
        {
            let c2 = text.get_char(j);
            if is_special(c2) || char_is_white_space(c2) {
                break ;
            }
            j += 1;
        }
        proof {
            assert forall|k: int| i as int <= k < j as int implies !((special_or_white_space())(
                s[k],
            )) by {
                assert(!special(s[k]) && !white_space(s[k]));
            }
            if (j as int) < n as int {
                assert((special_or_white_space())(s[j as int]));
            }
            lemma_seek_is(s, i as int, j as int, special_or_white_space());
        }
        let tok = text.substring_char(i, j);
        self.front = j;
        Some(tok)
    }

    /// Collects the remaining tokens, in order.
    pub fn tokens(self) -> (r: Vec<String>)
        requires
            self.wf(),
        ensures
            r.deep_view() == split_from(1, Seq::empty(), self.text(), self.pos()),
    {
        let ghost s = self.text();
        let ghost d: Seq<char> = Seq::empty();
        let ghost p0 = self.pos();
        let mut me = self;
        let mut out: Vec<String> = Vec::new();
        proof {
            assert(out.deep_view() =~= Seq::<Seq<char>>::empty());
        }
        loop
            invariant
                me.wf(),
                me.text() == s,
                0 <= p0 <= s.len(),
                out.deep_view() + split_from(1, d, s, me.pos()) == split_from(1, d, s, p0),
            ensures
                out.deep_view() == split_from(1, d, s, p0),
            decreases s.len() - me.pos(),
        {
            let ghost prev = me.pos();
            let ghost before = out.deep_view();
            let item = me.next();
            match item {
                Some(tok) => {
                    proof {
                        lemma_token_start_bounds(1, d, s, prev);
                        lemma_token_bounds(1, d, s, prev);
                    }
                    out.push(tok.to_owned());
                    proof {
                        let start = token_start(1, d, s, prev);
                        let end = token_end(1, d, s, start);
                        assert(out.deep_view() =~= before.push(tok@));
                        assert(split_from(1, d, s, prev) == seq![s.subrange(start, end)]
                            + split_from(1, d, s, end));
                        assert(before.push(tok@) + split_from(1, d, s, me.pos()) =~= before + (
                        seq![s.subrange(start, end)] + split_from(1, d, s, end)));
                    }
                },
                None => {
                    proof {
                        lemma_token_start_bounds(1, d, s, prev);
                        assert(split_from(1, d, s, prev) =~= Seq::<Seq<char>>::empty());
                        assert(out.deep_view() + Seq::<Seq<char>>::empty() =~= out.deep_view());
                    }
                    break ;
                },
            }
        }
        out
    }
}


/// Splits at whitespace; a maximal run of special characters is one token,
/// as is a maximal run of ordinary characters.
pub struct SpecialStrClump<'a> {
    string: &'a str,
    front: usize,
}

impl<'a> SpecialStrClump<'a> {
    /// The characters being split.
    pub closed spec fn text(self) -> Seq<char> {
        self.string@
    }

    /// The character position the next token is sought from.
    pub closed spec fn pos(self) -> int {
        self.front as int
    }

    /// The position always lies within the text.
    pub open spec fn wf(self) -> bool {
        0 <= self.pos() <= self.text().len()
    }

    pub fn new(input: &'a str) -> (r: Self)
        ensures
            r.text() == input@,
            r.pos() == 0,
            r.wf(),
    {
        SpecialStrClump { string: input, front: 0 }
    }

    /// Yields the next token: a maximal clump of special characters or a
    /// maximal word; whitespace is skipped. Returns `None` when only
    /// whitespace is left.
    pub fn next(&mut self) -> (r: Option<&'a str>)
        requires
            old(self).wf(),
        ensures
            final(self).wf(),
            final(self).text() == old(self).text(),
            ({
                let s = old(self).text();
                let start = token_start(2, Seq::empty(), s, old(self).pos());
                if start == s.len() {
                    &&& r is None
                    &&& final(self).pos() == old(self).pos()
                } else {
                    &&& r matches Some(t) && t@ == s.subrange(
                        start,
                        token_end(2, Seq::empty(), s, start),
                    )
                    &&& final(self).pos() == token_end(2, Seq::empty(), s, start)
                }
            }),
    {
        let text = self.string;
        let ghost s = text@;
        let ghost from = self.front as int;
        let n = text.unicode_len();
        let mut i: usize = self.front;
        while i < n
            invariant
                from <= i as int <= n as int,
                n as nat == s.len(),
                text@ == s,
                forall|j: int| from <= j < i as int ==> white_space(s[j]),
            ensures
                from <= i as int <= n as int,
                forall|j: int| from <= j < i as int ==> white_space(s[j]),
                (i as int) < n as int ==> !white_space(s[i as int]),
            decreases n - i,
        {
            let c = text.get_char(i);
            if !char_is_white_space(c) {
                break ;
            }
            i += 1;
        }
        proof {
            assert forall|j: int| from <= j < i as int implies !((not_white_space())(s[j])) by {
                assert(white_space(s[j]));
            }
            if (i as int) < n as int {
                assert((not_white_space())(s[i as int]));
            }
            lemma_seek_is(s, from, i as int, not_white_space());
        }
        if i == n {
            return None;
        }
        let c = text.get_char(i);
        if is_special(c) {
            let mut j: usize = i;
            while j < n
                invariant
                    i as int <= j as int <= n as int,
                    n as nat == s.len(),
                    text@ == s,
                    forall|k: int| i as int <= k < j as int ==> special(s[k]),
                ensures
                    i as int <= j as int <= n as int,
                    forall|k: int| i as int <= k < j as int ==> special(s[k]),
                    (j as int) < n as int ==> !special(s[j as int]),
                decreases n - j,
            {
                let c2 = text.get_char(j);
                if !is_special(c2) {
                    break ;
                }
                j += 1;
            }
            proof {
                assert forall|k: int| i as int <= k < j as int implies !((not_special())(
                    s[k],
                )) by {
                    assert(special(s[k]));
                }
                if (j as int) < n as int {
                    assert((not_special())(s[j as int]));
                }
                lemma_seek_is(s, i as int, j as int, not_special());
            }
            let tok = text.substring_char(i, j);
            self.front = j;
            return Some(tok);
        }
        let mut j: usize = i;
        while j < n
            invariant
                i as int <= j as int <= n as int,
                n as nat == s.len(),
                text@ == s,
                forall|k: int| i as int <= k < j as int ==> !special(s[k]) && !white_space(s[k]),
            ensures
                i as int <= j as int <= n as int,
                forall|k: int| i as int <= k < j as int ==> !special(s[k]) && !white_space(s[k]),
                (j as int) < n as int ==> special(s[j as int]) || white_space(s[j as int]),
            decreases n - j,
        {
            let c2 = text.get_char(j);
            if is_special(c2) || char_is_white_space(c2) {
                break ;
            }
            j += 1;
        }
        proof {
            assert forall|k: int| i as int <= k < j as int implies !((special_or_white_space())(
                s[k],
            )) by {
                assert(!special(s[k]) && !white_space(s[k]));
            }
            if (j as int) < n as int {
                assert((special_or_white_space())(s[j as int]));
            }
            lemma_seek_is(s, i as int, j as int, special_or_white_space());
        }
        let tok = text.substring_char(i, j);
        self.front = j;
        Some(tok)
    }

    /// Collects the remaining tokens, in order.
    pub fn tokens(self) -> (r: Vec<String>)
        requires
            self.wf(),
        ensures
            r.deep_view() == split_from(2, Seq::empty(), self.text(), self.pos()),
    {
        let ghost s = self.text();
        let ghost d: Seq<char> = Seq::empty();
        let ghost p0 = self.pos();
        let mut me = self;
        let mut out: Vec<String> = Vec::new();
        proof {
            assert(out.deep_view() =~= Seq::<Seq<char>>::empty());
        }
        loop
            invariant
                me.wf(),
                me.text() == s,
                0 <= p0 <= s.len(),
                out.deep_view() + split_from(2, d, s, me.pos()) == split_from(2, d, s, p0),
            ensures
                out.deep_view() == split_from(2, d, s, p0),
            decreases s.len() - me.pos(),
        {
            let ghost prev = me.pos();
            let ghost before = out.deep_view();
            let item = me.next();
            match item {
                Some(tok) => {
                    proof {
                        lemma_token_start_bounds(2, d, s, prev);
                        lemma_token_bounds(2, d, s, prev);
                    }
                    out.push(tok.to_owned());
                    proof {
                        let start = token_start(2, d, s, prev);
                        let end = token_end(2, d, s, start);
                        assert(out.deep_view() =~= before.push(tok@));
                        assert(split_from(2, d, s, prev) == seq![s.subrange(start, end)]
                            + split_from(2, d, s, end));
                        assert(before.push(tok@) + split_from(2, d, s, me.pos()) =~= before + (
                        seq![s.subrange(start, end)] + split_from(2, d, s, end)));
                    }
                },
                None => {
                    proof {
                        lemma_token_start_bounds(2, d, s, prev);
                        assert(split_from(2, d, s, prev) =~= Seq::<Seq<char>>::empty());
                        assert(out.deep_view() + Seq::<Seq<char>>::empty() =~= out.deep_view());
                    }
                    break ;
                },
            }
        }
        out
    }
}

/// Splits into single characters, skipping ASCII whitespace.
pub struct SpecialStrDivideall<'a> {
    string: &'a str,
    front: usize,
}

impl<'a> SpecialStrDivideall<'a> {
    /// The characters being split.
    pub closed spec fn text(self) -> Seq<char> {
        self.string@
    }

    /// The character position the next token is sought from.
    pub closed spec fn pos(self) -> int {
        self.front as int
    }

    /// The position always lies within the text.
    pub open spec fn wf(self) -> bool {
        0 <= self.pos() <= self.text().len()
    }

    pub fn new(input: &'a str) -> (r: Self)
        ensures
            r.text() == input@,
            r.pos() == 0,
            r.wf(),
    {
        SpecialStrDivideall { string: input, front: 0 }
    }

    /// Yields the next character that is not ASCII whitespace, as a token of
    /// its own. Returns `None` when only ASCII whitespace is left.
    pub fn next(&mut self) -> (r: Option<&'a str>)
        requires
            old(self).wf(),
        ensures
            final(self).wf(),
            final(self).text() == old(self).text(),
            ({
                let s = old(self).text();
                let start = token_start(3, Seq::empty(), s, old(self).pos());
                if start == s.len() {
                    &&& r is None
                    &&& final(self).pos() == s.len()
                } else {
                    &&& r matches Some(t) && t@ == s.subrange(start, start + 1)
                    &&& final(self).pos() == start + 1
                }
            }),
    {
        let text = self.string;
        let ghost s = text@;
        let ghost from = self.front as int;
        let n = text.unicode_len();
        let mut i: usize = self.front;
        while i < n
            invariant
                from <= i as int <= n as int,
                n as nat == s.len(),
                text@ == s,
                forall|j: int| from <= j < i as int ==> ascii_white_space(s[j]),
            ensures
                from <= i as int <= n as int,
                forall|j: int| from <= j < i as int ==> ascii_white_space(s[j]),
                (i as int) < n as int ==> !ascii_white_space(s[i as int]),
            decreases n - i,
        {
            let c = text.get_char(i);
            if !char_is_ascii_white_space(c) {
                break ;
            }
            i += 1;
        }
        proof {
            assert forall|j: int| from <= j < i as int implies !((not_ascii_white_space())(
                s[j],
            )) by {
                assert(ascii_white_space(s[j]));
            }
            if (i as int) < n as int {
                assert((not_ascii_white_space())(s[i as int]));
            }
            lemma_seek_is(s, from, i as int, not_ascii_white_space());
        }
        if i == n {
            self.front = n;
            return None;
        }
        let tok = text.substring_char(i, i + 1);
        self.front = i + 1;
        Some(tok)
    }

    /// Collects the remaining tokens, in order.
    pub fn tokens(self) -> (r: Vec<String>)
        requires
            self.wf(),
        ensures
            r.deep_view() == split_from(3, Seq::empty(), self.text(), self.pos()),
    {
        let ghost s = self.text();
        let ghost d: Seq<char> = Seq::empty();
        let ghost p0 = self.pos();
        let mut me = self;
        let mut out: Vec<String> = Vec::new();
        proof {
            assert(out.deep_view() =~= Seq::<Seq<char>>::empty());
        }
        loop
            invariant
                me.wf(),
                me.text() == s,
                0 <= p0 <= s.len(),
                out.deep_view() + split_from(3, d, s, me.pos()) == split_from(3, d, s, p0),
            ensures
                out.deep_view() == split_from(3, d, s, p0),
            decreases s.len() - me.pos(),
        {
            let ghost prev = me.pos();
            let ghost before = out.deep_view();
            let item = me.next();
            match item {
                Some(tok) => {
                    proof {
                        lemma_token_start_bounds(3, d, s, prev);
                        lemma_token_bounds(3, d, s, prev);
                    }
                    out.push(tok.to_owned());
                    proof {
                        let start = token_start(3, d, s, prev);
                        let end = token_end(3, d, s, start);
                        assert(out.deep_view() =~= before.push(tok@));
                        assert(split_from(3, d, s, prev) == seq![s.subrange(start, end)]
                            + split_from(3, d, s, end));
                        assert(before.push(tok@) + split_from(3, d, s, me.pos()) =~= before + (
                        seq![s.subrange(start, end)] + split_from(3, d, s, end)));
                    }
                },
                None => {
                    proof {
                        lemma_token_start_bounds(3, d, s, prev);
                        assert(split_from(3, d, s, prev) =~= Seq::<Seq<char>>::empty());
                        assert(out.deep_view() + Seq::<Seq<char>>::empty() =~= out.deep_view());
                    }
                    break ;
                },
            }
        }
        out
    }
}

/// Splits at a caller-chosen set of delimiter characters; a token is a
/// maximal run of characters that are not delimiters.
pub struct SpeciaStrDivideCustom<'a> {
    string: &'a str,
    front: usize,
    special_divide: Vec<char>,
}

impl<'a> SpeciaStrDivideCustom<'a> {
    /// The characters being split.
    pub closed spec fn text(self) -> Seq<char> {
        self.string@
    }

    /// The character position the next token is sought from.
    pub closed spec fn pos(self) -> int {
        self.front as int
    }

    /// The delimiter characters.
    pub closed spec fn delims(self) -> Seq<char> {
        self.special_divide@
    }

    /// The position always lies within the text.
    pub open spec fn wf(self) -> bool {
        0 <= self.pos() <= self.text().len()
    }

    /// The delimiters can be any characters.
    pub fn new(input: &'a str, delimiters: Vec<char>) -> (r: Self)
        ensures
            r.text() == input@,
            r.pos() == 0,
            r.delims() == delimiters@,
            r.wf(),
    {
        SpeciaStrDivideCustom { string: input, front: 0, special_divide: delimiters }
    }

    /// Yields the next maximal run of non-delimiter characters. Returns
    /// `None` when only delimiters are left.
    pub fn next(&mut self) -> (r: Option<&'a str>)
        requires
            old(self).wf(),
        ensures
            final(self).wf(),
            final(self).text() == old(self).text(),
            final(self).delims() == old(self).delims(),
            ({
                let s = old(self).text();
                let d = old(self).delims();
                let start = token_start(4, d, s, old(self).pos());
                if start == s.len() {
                    &&& r is None
                    &&& final(self).pos() == old(self).pos()
                } else {
                    &&& r matches Some(t) && t@ == s.subrange(start, token_end(4, d, s, start))
                    &&& final(self).pos() == token_end(4, d, s, start)
                }
            }),
    {
        let text = self.string;
        let ghost s = text@;
        let ghost d = self.special_divide@;
        let ghost from = self.front as int;
        let n = text.unicode_len();
        let mut i: usize = self.front;
        while i < n
            invariant
                from <= i as int <= n as int,
                n as nat == s.len(),
                text@ == s,
                self.special_divide@ == d,
                forall|j: int| from <= j < i as int ==> d.contains(s[j]),
            ensures
                from <= i as int <= n as int,
                self.special_divide@ == d,
                forall|j: int| from <= j < i as int ==> d.contains(s[j]),
                (i as int) < n as int ==> !d.contains(s[i as int]),
            decreases n - i,
        {
            let c = text.get_char(i);
            if !char_in(&self.special_divide, c) {
                break ;
            }
            i += 1;
        }
        proof {
            assert forall|j: int| from <= j < i as int implies !((not_in_delims(d))(s[j])) by {
                assert(d.contains(s[j]));
            }
            if (i as int) < n as int {
                assert((not_in_delims(d))(s[i as int]));
            }
            lemma_seek_is(s, from, i as int, not_in_delims(d));
        }
        if i == n {
            return None;
        }
        let mut j: usize = i;
        while j < n
            invariant
                i as int <= j as int <= n as int,
                n as nat == s.len(),
                text@ == s,
                self.special_divide@ == d,
                forall|k: int| i as int <= k < j as int ==> !d.contains(s[k]),
            ensures
                i as int <= j as int <= n as int,
                self.special_divide@ == d,
                forall|k: int| i as int <= k < j as int ==> !d.contains(s[k]),
                (j as int) < n as int ==> d.contains(s[j as int]),
            decreases n - j,
        {
            let c2 = text.get_char(j);
            if char_in(&self.special_divide, c2) {
                break ;
            }
            j += 1;
        }
        proof {
            assert forall|k: int| i as int <= k < j as int implies !((in_delims(d))(s[k])) by {
                assert(!d.contains(s[k]));
            }
            if (j as int) < n as int {
                assert((in_delims(d))(s[j as int]));
            }
            lemma_seek_is(s, i as int, j as int, in_delims(d));
        }
        let tok = text.substring_char(i, j);
        self.front = j;
        Some(tok)
    }

    /// Collects the remaining tokens, in order.
    pub fn tokens(self) -> (r: Vec<String>)
        requires
            self.wf(),
        ensures
            r.deep_view() == split_from(4, self.delims(), self.text(), self.pos()),
    {
        let ghost s = self.text();
        let ghost d = self.delims();
        let ghost p0 = self.pos();
        let mut me = self;
        let mut out: Vec<String> = Vec::new();
        proof {
            assert(out.deep_view() =~= Seq::<Seq<char>>::empty());
        }
        loop
            invariant
                me.wf(),
                me.text() == s,
                me.delims() == d,
                0 <= p0 <= s.len(),
                out.deep_view() + split_from(4, d, s, me.pos()) == split_from(4, d, s, p0),
            ensures
                out.deep_view() == split_from(4, d, s, p0),
            decreases s.len() - me.pos(),
        {
            let ghost prev = me.pos();
            let ghost before = out.deep_view();
            let item = me.next();
            match item {
                Some(tok) => {
                    proof {
                        lemma_token_start_bounds(4, d, s, prev);
                        lemma_token_bounds(4, d, s, prev);
                    }
                    out.push(tok.to_owned());
                    proof {
                        let start = token_start(4, d, s, prev);
                        let end = token_end(4, d, s, start);
                        assert(out.deep_view() =~= before.push(tok@));
                        assert(split_from(4, d, s, prev) == seq![s.subrange(start, end)]
                            + split_from(4, d, s, end));
                        assert(before.push(tok@) + split_from(4, d, s, me.pos()) =~= before + (
                        seq![s.subrange(start, end)] + split_from(4, d, s, end)));
                    }
                },
                None => {
                    proof {
                        lemma_token_start_bounds(4, d, s, prev);
                        assert(split_from(4, d, s, prev) =~= Seq::<Seq<char>>::empty());
                        assert(out.deep_view() + Seq::<Seq<char>>::empty() =~= out.deep_view());
                    }
                    break ;
                },
            }
        }
        out
    }
}

/// Decides whether `c` is one of the characters in `delims`.
fn char_in(delims: &Vec<char>, c: char) -> (r: bool)
    ensures
        r == delims@.contains(c),
{
    let mut k: usize = 0;
    while k < delims.len()
        invariant
            k <= delims.len(),
            forall|j: int| 0 <= j < k as int ==> delims@[j] != c,
        decreases delims.len() - k,
    {
        if delims[k] == c {
            return true;
        }
        k += 1;
    }
    false
}

/// One splitter of any of the four kinds.
pub enum SpecialStrings<'a> {
    /// Divides at whitespace and at each special character.
    DivideSpecial(SpecialStr<'a>),
    /// Divides at whitespace, clumping runs of special characters.
    ClumpSpecial(SpecialStrClump<'a>),
    /// Divides into single characters, skipping ASCII whitespace.
    DivideAll(SpecialStrDivideall<'a>),
    /// Divides at caller-chosen delimiter characters.
    DivideCustomSpaces(SpeciaStrDivideCustom<'a>),
}

impl<'a> SpecialStrings<'a> {
    /// The numeric kind of the splitter, as `split_from` understands it.
    pub open spec fn kind(self) -> int {
        match self {
            SpecialStrings::DivideSpecial(_) => 1,
            SpecialStrings::ClumpSpecial(_) => 2,
            SpecialStrings::DivideAll(_) => 3,
            SpecialStrings::DivideCustomSpaces(_) => 4,
        }
    }

    /// The characters being split.
    pub open spec fn text(self) -> Seq<char> {
        match self {
            SpecialStrings::DivideSpecial(sp) => sp.text(),
            SpecialStrings::ClumpSpecial(sp) => sp.text(),
            SpecialStrings::DivideAll(sp) => sp.text(),
            SpecialStrings::DivideCustomSpaces(sp) => sp.text(),
        }
    }

    /// The character position the next token is sought from.
    pub open spec fn pos(self) -> int {
        match self {
            SpecialStrings::DivideSpecial(sp) => sp.pos(),
            SpecialStrings::ClumpSpecial(sp) => sp.pos(),
            SpecialStrings::DivideAll(sp) => sp.pos(),
            SpecialStrings::DivideCustomSpaces(sp) => sp.pos(),
        }
    }

    /// The delimiters, for the custom splitter; empty otherwise.
    pub open spec fn delims(self) -> Seq<char> {
        match self {
            SpecialStrings::DivideCustomSpaces(sp) => sp.delims(),
            _ => Seq::empty(),
        }
    }

    /// The position always lies within the text.
    pub open spec fn wf(self) -> bool {
        match self {
            SpecialStrings::DivideSpecial(sp) => sp.wf(),
            SpecialStrings::ClumpSpecial(sp) => sp.wf(),
            SpecialStrings::DivideAll(sp) => sp.wf(),
            SpecialStrings::DivideCustomSpaces(sp) => sp.wf(),
        }
    }

    /// Collects the remaining tokens of the splitter, in order.
    pub fn into_tokens(self) -> (r: Vec<String>)
        requires
            self.wf(),
        ensures
            r.deep_view() == split_from(self.kind(), self.delims(), self.text(), self.pos()),
    {
        match self {
            SpecialStrings::DivideSpecial(sp) => sp.tokens(),
            SpecialStrings::ClumpSpecial(sp) => sp.tokens(),
            SpecialStrings::DivideAll(sp) => sp.tokens(),
            SpecialStrings::DivideCustomSpaces(sp) => sp.tokens(),
        }
    }
}

} // verus!
