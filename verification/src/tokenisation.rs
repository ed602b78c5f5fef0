//! Token tables and token post-processing: lowercasing and splitting a
//! column of text into an indexed token table, counting tokens, dropping
//! unwanted tokens, stemming, and stop-word removal.

use crate::special_iterator::{
    special, split_from, SpeciaStrDivideCustom, SpecialStr, SpecialStrClump, SpecialStrDivideall,
    SpecialStrings,
};
use vstd::prelude::*;
use vstd::string::StrSliceExecFns;
use vstd::string::StringExecFns;
use vstd::string::StringSliceAdditionalSpecFns;

verus! {

/// What `str::to_lowercase` returns: the Unicode lowercase mapping of the
/// characters, which depends on the characters alone.
pub uninterp spec fn lowered(s: Seq<char>) -> Seq<char>;

/// Relies on `str::to_lowercase`: the result is the Unicode lowercasing of
/// the input, a function of the input characters alone; an empty string
/// stays empty.
#[verifier::external_body]
fn to_lower(s: &str) -> (r: String)
    ensures
        r@ == lowered(s@),
        s@.len() == 0 ==> r@.len() == 0,
{
    s.to_lowercase()
}

/// What the Snowball English stemmer returns for a word: a function of the
/// word's characters alone.
pub uninterp spec fn stemmed(w: Seq<char>) -> Seq<char>;

/// Relies on `rust_stemmers::Stemmer`: `create(Algorithm::English)` selects
/// the Snowball English algorithm, and `stem` applies it to the word, a
/// deterministic function of the word's characters.
#[verifier::external_body]
fn stem_english(word: &str) -> (r: String)
    ensures
        r@ == stemmed(word@),
{
    rust_stemmers::Stemmer::create(rust_stemmers::Algorithm::English).stem(word).into_owned()
}

/// Decides whether two string slices hold the same characters.
fn str_eq(a: &str, b: &str) -> (r: bool)
    ensures
        r == (a@ == b@),
{
    let an = a.unicode_len();
    let bn = b.unicode_len();
    if an != bn {
        return false;
    }
    let mut k: usize = 0;
    while k < an
        invariant
            k <= an,
            an as nat == a@.len(),
            an as nat == b@.len(),
            forall|j: int| 0 <= j < k as int ==> a@[j] == b@[j],
        decreases an - k,
    {
        if a.get_char(k) != b.get_char(k) {
            return false;
        }
        k += 1;
    }
    proof {
        assert(a@ =~= b@);
    }
    true
}

/// `e` is a suffix of `t`.
pub open spec fn suffix_of(e: Seq<char>, t: Seq<char>) -> bool {
    e.len() <= t.len() && t.subrange(t.len() - e.len(), t.len() as int) == e
}

/// Decides whether `t` ends with the characters of `e`.
fn str_ends_with(t: &str, e: &str) -> (r: bool)
    ensures
        r == suffix_of(e@, t@),
{
    let tn = t.unicode_len();
    let en = e.unicode_len();
    if en > tn {
        return false;
    }
    let mut k: usize = 0;
    while k < en
        invariant
            k <= en <= tn,
            tn as nat == t@.len(),
            en as nat == e@.len(),
            forall|j: int| 0 <= j < k as int ==> t@[tn - en + j] == e@[j],
        decreases en - k,
    {
        if t.get_char(tn - en + k) != e.get_char(k) {
            proof {
                assert(t@.subrange(tn - en, tn as int)[k as int] == t@[tn - en + k]);
            }
            return false;
        }
        k += 1;
    }
    proof {
        assert(t@.subrange(tn - en, tn as int) =~= e@);
    }
    true
}

/// `t` ends with one of the endings.
pub open spec fn ends_with_any(t: Seq<char>, endings: Seq<Seq<char>>) -> bool {
    exists|i: int| 0 <= i < endings.len() && suffix_of(endings[i], t)
}

/// The stems of the tokens, in order, leaving out every token that ends
/// with one of the exception endings.
pub open spec fn stemm_list(tokens: Seq<Seq<char>>, endings: Seq<Seq<char>>) -> Seq<Seq<char>>
    decreases tokens.len(),
{
    if tokens.len() == 0 {
        Seq::empty()
    } else if ends_with_any(tokens[0], endings) {
        stemm_list(tokens.drop_first(), endings)
    } else {
        seq![stemmed(tokens[0])] + stemm_list(tokens.drop_first(), endings)
    }
}

/// The splitter kind a name selects: `divide_special`, `clump_special` or
/// `divide_all`.
pub open spec fn splitter_kind(name: Seq<char>) -> int {
    if name == "divide_special"@ {
        1
    } else if name == "clump_special"@ {
        2
    } else {
        3
    }
}

/// Splits an already lowercased string with the named splitter and stems
/// each token with the English stemmer; a token that ends with one of the
/// exception endings is left out instead.
pub fn stemm_string(lower_temp: &str, iterator_type: &str, exception_endings: Vec<&str>) -> (r:
    Vec<String>)
    requires
        iterator_type@ == "divide_special"@ || iterator_type@ == "clump_special"@
            || iterator_type@ == "divide_all"@,
    ensures
        r.deep_view() == stemm_list(
            split_from(splitter_kind(iterator_type@), Seq::empty(), lower_temp@, 0),
            exception_endings.deep_view(),
        ),
{
    let ghost exs = exception_endings.deep_view();
    let tokens: Vec<String> = if str_eq(iterator_type, "divide_special") {
        SpecialStr::new(lower_temp).tokens()
    } else if str_eq(iterator_type, "clump_special") {
        SpecialStrClump::new(lower_temp).tokens()
    } else {
        SpecialStrDivideall::new(lower_temp).tokens()
    };
    let ghost all = tokens.deep_view();
    let mut out: Vec<String> = Vec::new();
    let mut idx: usize = 0;
    proof {
        assert(out.deep_view() =~= Seq::<Seq<char>>::empty());
        assert(all.skip(0) =~= all);
    }
    while idx < tokens.len()
        invariant
            idx <= tokens.len(),
            all == tokens.deep_view(),
            exs == exception_endings.deep_view(),
            out.deep_view() + stemm_list(all.skip(idx as int), exs) == stemm_list(all, exs),
        decreases tokens.len() - idx,
    {
        let ghost before = out.deep_view();
        let ghost tv = all[idx as int];
        proof {
            assert(tokens[idx as int]@ == tv);
            assert(all.skip(idx as int) =~= seq![tv] + all.skip(idx as int + 1));
            assert((seq![tv] + all.skip(idx as int + 1)).drop_first() =~= all.skip(idx as int + 1));
        }
        let tok = &tokens[idx];
        let mut skip_it = false;
        let mut e: usize = 0;
        while e < exception_endings.len()
            invariant_except_break
                e <= exception_endings.len(),
                !skip_it,
                forall|i2: int| 0 <= i2 < e as int ==> !suffix_of(exs[i2], tv),
            invariant
                exs == exception_endings.deep_view(),
                tok@ == tv,
            ensures
                skip_it == ends_with_any(tv, exs),
            decreases exception_endings.len() - e,
        {
            let ending: &str = exception_endings[e];
            proof {
                assert(ending@ == exs[e as int]);
            }
            if str_ends_with(tok.as_str(), ending) {
                skip_it = true;
                break ;
            }
            e += 1;
        }
        if !skip_it {
            let stem = stem_english(tok.as_str());
            out.push(stem);
            proof {
                assert(out.deep_view() =~= before.push(stemmed(tv)));
                assert(before.push(stemmed(tv)) + stemm_list(all.skip(idx as int + 1), exs)
                    =~= before + (seq![stemmed(tv)] + stemm_list(all.skip(idx as int + 1), exs)));
            }
        }
        idx += 1;
    }
    proof {
        assert(all.skip(tokens.len() as int) =~= Seq::<Seq<char>>::empty());
        assert(out.deep_view() + Seq::<Seq<char>>::empty() =~= out.deep_view());
    }
    out
}

/// The tokens, in order, with every token that occurs in `stop` removed.
pub open spec fn without_words(tokens: Seq<Seq<char>>, stop: Seq<Seq<char>>) -> Seq<Seq<char>>
    decreases tokens.len(),
{
    if tokens.len() == 0 {
        Seq::empty()
    } else if stop.contains(tokens[0]) {
        without_words(tokens.drop_first(), stop)
    } else {
        seq![tokens[0]] + without_words(tokens.drop_first(), stop)
    }
}

/// Removes from the vector every token that occurs in the stop-word list,
/// keeping the order of the rest.
pub fn remove_stop_words(token_in_order: &mut Vec<String>, stop_words: &Vec<&str>)
    ensures
        final(token_in_order).deep_view() == without_words(
            old(token_in_order).deep_view(),
            stop_words.deep_view(),
        ),
{
    let ghost all = token_in_order.deep_view();
    let ghost stop = stop_words.deep_view();
    let mut kept: Vec<String> = Vec::new();
    let mut idx: usize = 0;
    proof {
        assert(kept.deep_view() =~= Seq::<Seq<char>>::empty());
        assert(all.skip(0) =~= all);
    }
    while idx < token_in_order.len()
        invariant
            idx <= token_in_order.len(),
            all == token_in_order.deep_view(),
            stop == stop_words.deep_view(),
            kept.deep_view() + without_words(all.skip(idx as int), stop) == without_words(
                all,
                stop,
            ),
        decreases token_in_order.len() - idx,
    {
        let ghost before = kept.deep_view();
        let ghost tv = all[idx as int];
        proof {
            assert(token_in_order[idx as int]@ == tv);
            assert(all.skip(idx as int) =~= seq![tv] + all.skip(idx as int + 1));
            assert((seq![tv] + all.skip(idx as int + 1)).drop_first() =~= all.skip(idx as int + 1));
        }
        let tok = &token_in_order[idx];
        let mut found = false;
        let mut w: usize = 0;
        while w < stop_words.len()
            invariant_except_break
                w <= stop_words.len(),
                !found,
                forall|i2: int| 0 <= i2 < w as int ==> stop[i2] != tv,
            invariant
                stop == stop_words.deep_view(),
                tok@ == tv,
            ensures
                found == stop.contains(tv),
            decreases stop_words.len() - w,
        {
            let sw: &str = stop_words[w];
            proof {
                assert(sw@ == stop[w as int]);
            }
            if str_eq(tok.as_str(), sw) {
                found = true;
                break ;
            }
            w += 1;
        }
        if !found {
            let copy = String::from_str(tok.as_str());
            kept.push(copy);
            proof {
                assert(kept.deep_view() =~= before.push(tv));
                assert(before.push(tv) + without_words(all.skip(idx as int + 1), stop) =~= before
                    + (seq![tv] + without_words(all.skip(idx as int + 1), stop)));
            }
        }
        idx += 1;
    }
    proof {
        assert(all.skip(token_in_order.len() as int) =~= Seq::<Seq<char>>::empty());
        assert(kept.deep_view() + Seq::<Seq<char>>::empty() =~= kept.deep_view());
    }
    *token_in_order = kept;
}

/// The second character of a token, or the nul character when the token is
/// shorter than two characters.
pub open spec fn second_or_nul(t: Seq<char>) -> char {
    if t.len() >= 2 {
        t[1]
    } else {
        '\0'
    }
}

/// The tokens, in order, without those whose second character is special;
/// a token shorter than two characters counts as special too.
pub open spec fn without_special_words(tokens: Seq<Seq<char>>) -> Seq<Seq<char>>
    decreases tokens.len(),
{
    if tokens.len() == 0 {
        Seq::empty()
    } else if special(second_or_nul(tokens[0])) {
        without_special_words(tokens.drop_first())
    } else {
        seq![tokens[0]] + without_special_words(tokens.drop_first())
    }
}

/// Removes from the vector every token whose second character is special
/// (a token shorter than two characters counts as special), keeping the
/// order of the rest. The stop-word list is not consulted.
pub fn remove_special_words(token_in_order: &mut Vec<String>, stop_words: &Vec<&str>)
    ensures
        final(token_in_order).deep_view() == without_special_words(
            old(token_in_order).deep_view(),
        ),
{
    let ghost all = token_in_order.deep_view();
    let mut kept: Vec<String> = Vec::new();
    let mut idx: usize = 0;
    proof {
        assert(kept.deep_view() =~= Seq::<Seq<char>>::empty());
        assert(all.skip(0) =~= all);
    }
    while idx < token_in_order.len()
        invariant
            idx <= token_in_order.len(),
            all == token_in_order.deep_view(),
            kept.deep_view() + without_special_words(all.skip(idx as int))
                == without_special_words(all),
        decreases token_in_order.len() - idx,
    {
        let ghost before = kept.deep_view();
        let ghost tv = all[idx as int];
        proof {
            assert(token_in_order[idx as int]@ == tv);
            assert(all.skip(idx as int) =~= seq![tv] + all.skip(idx as int + 1));
            assert((seq![tv] + all.skip(idx as int + 1)).drop_first() =~= all.skip(idx as int + 1));
        }
        let tok = &token_in_order[idx];
        let n = tok.as_str().unicode_len();
        let c = if n >= 2 {
            tok.as_str().get_char(1)
        } else {
            '\0'
        };
        proof {
            assert(c == second_or_nul(tv));
        }
        if !crate::special_iterator::is_special(c) {
            let copy = String::from_str(tok.as_str());
            kept.push(copy);
            proof {
                assert(kept.deep_view() =~= before.push(tv));
                assert(before.push(tv) + without_special_words(all.skip(idx as int + 1))
                    =~= before + (seq![tv] + without_special_words(all.skip(idx as int + 1))));
            }
        }
        idx += 1;
    }
    proof {
        assert(all.skip(token_in_order.len() as int) =~= Seq::<Seq<char>>::empty());
        assert(kept.deep_view() + Seq::<Seq<char>>::empty() =~= kept.deep_view());
    }
    *token_in_order = kept;
}

/// One entry of the token table: a token and how often it occurred.
pub struct TokenEntry {
    pub token: String,
    pub count: usize,
}

/// An indexed token table together with each input string encoded as the
/// sequence of its tokens' indices. A removed token leaves a hole, so the
/// other tokens keep their indices.
pub struct Tokens {
    /// The tokens in order of first appearance; a token's index is its
    /// position here. Removal replaces an entry with `None`.
    pub token_table: Vec<Option<TokenEntry>>,
    /// For each input string, the indices of its tokens in order.
    pub data_in_sequence: Vec<Vec<usize>>,
}

/// Whether a table entry holds the given token.
pub open spec fn entry_is(e: Option<(Seq<char>, usize)>, t: Seq<char>) -> bool {
    e matches Some(p) && p.0 == t
}

/// The index of the entry that holds `t`, or `-1` when no entry does.
pub open spec fn find_token(table: Seq<Option<(Seq<char>, usize)>>, t: Seq<char>) -> int
    decreases table.len(),
{
    if table.len() == 0 {
        -1
    } else if entry_is(table[0], t) {
        0
    } else {
        let r = find_token(table.drop_first(), t);
        if r < 0 {
            -1
        } else {
            r + 1
        }
    }
}

/// `find_token` returns the first matching index: `i` when the entries
/// before `i` do not match and `i` does, and `-1` when nothing matches.
pub proof fn lemma_find_is(table: Seq<Option<(Seq<char>, usize)>>, t: Seq<char>, i: int)
    requires
        0 <= i <= table.len(),
        forall|j: int| 0 <= j < i ==> !entry_is(table[j], t),
        i < table.len() ==> entry_is(table[i], t),
    ensures
        find_token(table, t) == if i == table.len() {
            -1int
        } else {
            i
        },
    decreases i,
{
    if i > 0 {
        assert(!entry_is(table[0], t));
        lemma_find_is(table.drop_first(), t, i - 1);
        assert forall|j: int| 0 <= j < i - 1 implies !entry_is(table.drop_first()[j], t) by {
            assert(table.drop_first()[j] == table[j + 1]);
        }
    }
}

/// A count one higher, held at the maximum once it is reached.
pub open spec fn bumped(c: usize) -> usize {
    if c < usize::MAX {
        (c + 1) as usize
    } else {
        c
    }
}

/// The table after recording one occurrence of `t`: the matching entry's
/// count is bumped, or a new entry with count one is appended.
pub open spec fn add_token(table: Seq<Option<(Seq<char>, usize)>>, t: Seq<char>) -> Seq<
    Option<(Seq<char>, usize)>,
> {
    let i = find_token(table, t);
    if i < 0 {
        table.push(Some((t, 1)))
    } else {
        match table[i] {
            Some(e) => table.update(i, Some((e.0, bumped(e.1)))),
            None => table,
        }
    }
}

/// The index under which one occurrence of `t` is recorded: the matching
/// entry's position, or the fresh position at the end.
pub open spec fn token_index_after(table: Seq<Option<(Seq<char>, usize)>>, t: Seq<char>) -> int {
    let i = find_token(table, t);
    if i < 0 {
        table.len() as int
    } else {
        i
    }
}

/// Records the tokens one after the other: the table grows as `add_token`
/// says and the row receives each token's index in order.
pub open spec fn add_tokens(
    table: Seq<Option<(Seq<char>, usize)>>,
    row: Seq<usize>,
    tokens: Seq<Seq<char>>,
) -> (Seq<Option<(Seq<char>, usize)>>, Seq<usize>)
    decreases tokens.len(),
{
    if tokens.len() == 0 {
        (table, row)
    } else {
        add_tokens(
            add_token(table, tokens[0]),
            row.push(token_index_after(table, tokens[0]) as usize),
            tokens.drop_first(),
        )
    }
}

/// Tokenises the lowercased sentences one after the other with the splitter
/// of the given kind: the final table, and one index row per sentence.
pub open spec fn tokenise_fold(
    table: Seq<Option<(Seq<char>, usize)>>,
    sentences: Seq<Seq<char>>,
    kind: int,
    delims: Seq<char>,
) -> (Seq<Option<(Seq<char>, usize)>>, Seq<Seq<usize>>)
    decreases sentences.len(),
{
    if sentences.len() == 0 {
        (table, Seq::empty())
    } else {
        let first = add_tokens(
            table,
            Seq::empty(),
            split_from(kind, delims, lowered(sentences[0]), 0),
        );
        let rest = tokenise_fold(first.0, sentences.drop_first(), kind, delims);
        (rest.0, seq![first.1] + rest.1)
    }
}

impl Tokens {
    /// The token table as a sequence of optional token-count pairs.
    pub open spec fn table_model(self) -> Seq<Option<(Seq<char>, usize)>> {
        Seq::new(
            self.token_table@.len(),
            |i: int|
                match self.token_table@[i] {
                    Some(e) => Some((e.token@, e.count)),
                    None => None,
                },
        )
    }

    /// Makes an empty token table with one empty index row for each of the
    /// given number of input strings.
    pub fn new(number_of_samples: usize) -> (r: Tokens)
        ensures
            r.table_model().len() == 0,
            r.data_in_sequence@.len() == number_of_samples,
            forall|i: int| 0 <= i < number_of_samples ==> r.data_in_sequence@[i]@.len() == 0,
    {
        let mut rows: Vec<Vec<usize>> = Vec::new();
        let mut k: usize = 0;
        while k < number_of_samples
            invariant
                k <= number_of_samples,
                rows@.len() == k,
                forall|i: int| 0 <= i < k as int ==> rows@[i]@.len() == 0,
            decreases number_of_samples - k,
        {
            rows.push(Vec::new());
            k += 1;
        }
        Tokens { token_table: Vec::new(), data_in_sequence: rows }
    }

    /// Records one occurrence of the token and returns the index it was
    /// recorded under.
    fn push_token(&mut self, token: String) -> (idx: usize)
        ensures
            final(self).table_model() == add_token(old(self).table_model(), token@),
            idx as int == token_index_after(old(self).table_model(), token@),
            final(self).data_in_sequence@ == old(self).data_in_sequence@,
    {
        let ghost m = self.table_model();
        let n = self.token_table.len();
        let mut i: usize = 0;
        while i < n
            invariant
                i <= n,
                n == self.token_table@.len(),
                m == self.table_model(),
                forall|j: int| 0 <= j < i as int ==> !entry_is(m[j], token@),
            ensures
                i <= n,
                n == self.token_table@.len(),
                m == self.table_model(),
                forall|j: int| 0 <= j < i as int ==> !entry_is(m[j], token@),
                i < n ==> entry_is(m[i as int], token@),
            decreases n - i,
        {
            let step: bool = match &self.token_table[i] {
                Some(e) => str_eq(e.token.as_str(), token.as_str()),
                None => false,
            };
            if step {
                proof {
                    assert(entry_is(m[i as int], token@));
                }
                break ;
            }
            proof {
                assert(!entry_is(m[i as int], token@));
            }
            i += 1;
        }
        proof {
            lemma_find_is(m, token@, i as int);
        }
        if i < n {
            proof {
                assert(entry_is(m[i as int], token@));
            }
            let (tok2, c): (String, usize) = match &self.token_table[i] {
                Some(e) => (e.token.clone(), e.count),
                None => {
                    proof {
                        assert(false);
                    }
                    (String::new(), 0)
                },
            };
            let c2 = if c < usize::MAX {
                c + 1
            } else {
                c
            };
            self.token_table[i] = Some(TokenEntry { token: tok2, count: c2 });
            proof {
                assert(final(self).table_model() =~= add_token(m, token@));
            }
            return i;
        }
        let idx = self.token_table.len();
        self.token_table.push(Some(TokenEntry { token, count: 1 }));
        proof {
            assert(final(self).table_model() =~= add_token(m, token@));
        }
        idx
    }

    /// Tokenises a column of strings. Each string is lowercased and split
    /// with the splitter the id selects (1 divides at special characters, 2
    /// clumps them, 3 divides into single characters, 4 divides at the given
    /// delimiters); every token is recorded in the table and the string's
    /// index row is filled with the tokens' indices. The table must be empty
    /// and the rows for the column must be empty and already allocated, as
    /// `new` leaves them.
    pub fn tokenise(
        &mut self,
        column: &Vec<String>,
        iterator_type_id: usize,
        custom_delimiters: Option<Vec<char>>,
    )
        requires
            1 <= iterator_type_id <= 4,
            iterator_type_id == 4 ==> custom_delimiters is Some,
            old(self).table_model().len() == 0,
            column@.len() <= old(self).data_in_sequence@.len(),
            forall|i: int| 0 <= i < column@.len() ==> old(self).data_in_sequence@[i]@.len() == 0,
        ensures
            ({
                let sentences = column.deep_view();
                let kind = iterator_type_id as int;
                let delims = match custom_delimiters {
                    Some(v) => if iterator_type_id == 4 {
                        v@
                    } else {
                        Seq::<char>::empty()
                    },
                    None => Seq::<char>::empty(),
                };
                let folded = tokenise_fold(
                    Seq::<Option<(Seq<char>, usize)>>::empty(),
                    sentences,
                    kind,
                    delims,
                );
                &&& final(self).table_model() == folded.0
                &&& final(self).data_in_sequence@.len() == old(self).data_in_sequence@.len()
                &&& forall|i: int|
                    0 <= i < sentences.len() ==> final(self).data_in_sequence@[i]@ == folded.1[i]
                &&& forall|i: int|
                    sentences.len() <= i < old(self).data_in_sequence@.len() ==> final(
                        self).data_in_sequence@[i] == old(self).data_in_sequence@[i]
            }),
    {
        let ghost sentences = column.deep_view();
        let ghost kind = iterator_type_id as int;
        let delims_vec: Vec<char> = match custom_delimiters {
            Some(v) => v,
            None => Vec::new(),
        };
        let ghost delims = if iterator_type_id == 4 {
            delims_vec@
        } else {
            Seq::<char>::empty()
        };
        let ghost empty_table = Seq::<Option<(Seq<char>, usize)>>::empty();
        let ghost rows0 = self.data_in_sequence@;
        let ghost nrows = self.data_in_sequence@.len();
        proof {
            assert(self.table_model() =~= empty_table);
            assert(sentences.skip(0) =~= sentences);
            assert(Seq::new(0 as nat, |i: int| self.data_in_sequence@[i]@) + tokenise_fold(
                empty_table,
                sentences,
                kind,
                delims,
            ).1 =~= tokenise_fold(empty_table, sentences, kind, delims).1);
        }
        let mut si: usize = 0;
        while si < column.len()
            invariant
                si <= column@.len(),
                sentences == column.deep_view(),
                1 <= iterator_type_id <= 4,
                kind == iterator_type_id as int,
                delims == if iterator_type_id == 4 {
                    delims_vec@
                } else {
                    Seq::<char>::empty()
                },
                self.data_in_sequence@.len() == nrows,
                column@.len() <= nrows,
                forall|i: int| si as int <= i < nrows ==> self.data_in_sequence@[i] == rows0[i],
                tokenise_fold(empty_table, sentences, kind, delims).0 == tokenise_fold(
                    self.table_model(),
                    sentences.skip(si as int),
                    kind,
                    delims,
                ).0,
                tokenise_fold(empty_table, sentences, kind, delims).1 == Seq::new(
                    si as nat,
                    |i: int| self.data_in_sequence@[i]@,
                ) + tokenise_fold(
                    self.table_model(),
                    sentences.skip(si as int),
                    kind,
                    delims,
                ).1,
            decreases column@.len() - si,
        {
            let ghost built = Seq::new(si as nat, |i: int| self.data_in_sequence@[i]@);
            let sentence = &column[si];
            let lower = to_lower(sentence.as_str());
            proof {
                assert(sentence@ == sentences[si as int]);
                assert(sentences.skip(si as int) =~= seq![sentences[si as int]] + sentences.skip(
                    si as int + 1,
                ));
                assert((seq![sentences[si as int]] + sentences.skip(si as int + 1)).drop_first()
                    =~= sentences.skip(si as int + 1));
            }
            let sp: SpecialStrings = if iterator_type_id == 1 {
                SpecialStrings::DivideSpecial(SpecialStr::new(lower.as_str()))
            } else if iterator_type_id == 2 {
                SpecialStrings::ClumpSpecial(SpecialStrClump::new(lower.as_str()))
            } else if iterator_type_id == 3 {
                SpecialStrings::DivideAll(SpecialStrDivideall::new(lower.as_str()))
            } else {
                SpecialStrings::DivideCustomSpaces(
                    SpeciaStrDivideCustom::new(lower.as_str(), copy_chars(&delims_vec)),
                )
            };
            let toks = sp.into_tokens();
            proof {
                assert(toks.deep_view() == split_from(
                    kind,
                    delims,
                    lowered(sentences[si as int]),
                    0,
                ));
            }
            let ghost tstart = self.table_model();
            let ghost all_toks = toks.deep_view();
            let ghost rows_now = self.data_in_sequence@;
            let mut row: Vec<usize> = Vec::new();
            let mut ti: usize = 0;
            proof {
                assert(all_toks.skip(0) =~= all_toks);
                assert(row@ =~= Seq::<usize>::empty());
            }
            while ti < toks.len()
                invariant
                    ti <= toks@.len(),
                    all_toks == toks.deep_view(),
                    self.data_in_sequence@ == rows_now,
                    add_tokens(tstart, Seq::<usize>::empty(), all_toks) == add_tokens(
                        self.table_model(),
                        row@,
                        all_toks.skip(ti as int),
                    ),
                decreases toks@.len() - ti,
            {
                let ghost tv = all_toks[ti as int];
                proof {
                    assert(toks[ti as int]@ == tv);
                    assert(all_toks.skip(ti as int) =~= seq![tv] + all_toks.skip(ti as int + 1));
                    assert((seq![tv] + all_toks.skip(ti as int + 1)).drop_first() =~= all_toks.skip(
                        ti as int + 1,
                    ));
                }
                let t = &toks[ti];
                let t_copy = String::from_str(t.as_str());
                let ghost mprev = self.table_model();
                let ghost rowprev = row@;
                let idx = self.push_token(t_copy);
                row.push(idx);
                proof {
                    assert(idx as int == token_index_after(mprev, tv));
                    assert(row@ == rowprev.push(token_index_after(mprev, tv) as usize));
                    assert(add_tokens(mprev, rowprev, all_toks.skip(ti as int)) == add_tokens(
                        self.table_model(),
                        row@,
                        all_toks.skip(ti as int + 1),
                    ));
                }
                ti += 1;
            }
            proof {
                assert(all_toks.skip(toks@.len() as int) =~= Seq::<Seq<char>>::empty());
                assert(add_tokens(tstart, Seq::<usize>::empty(), all_toks) == (
                    self.table_model(),
                    row@,
                ));
            }
            let ghost table_after = self.table_model();
            let ghost row_view = row@;
            self.data_in_sequence[si] = row;
            proof {
                assert(tokenise_fold(table_after, sentences.skip(si as int + 1), kind, delims)
                    == tokenise_fold(
                    self.table_model(),
                    sentences.skip(si as int + 1),
                    kind,
                    delims,
                ));
                assert(tokenise_fold(tstart, sentences.skip(si as int), kind, delims).1 == seq![
                    row_view,
                ] + tokenise_fold(table_after, sentences.skip(si as int + 1), kind, delims).1);
                assert(Seq::new((si + 1) as nat, |i: int| self.data_in_sequence@[i]@) =~= built.push(
                    row_view,
                ));
                assert(built.push(row_view) + tokenise_fold(
                    table_after,
                    sentences.skip(si as int + 1),
                    kind,
                    delims,
                ).1 =~= built + (seq![row_view] + tokenise_fold(
                    table_after,
                    sentences.skip(si as int + 1),
                    kind,
                    delims,
                ).1));
            }
            si += 1;
        }
        proof {
            assert(sentences.skip(column@.len() as int) =~= Seq::<Seq<char>>::empty());
            let folded = tokenise_fold(empty_table, sentences, kind, delims);
            assert(folded.1 == Seq::new(sentences.len(), |i: int| self.data_in_sequence@[i]@)
                + Seq::<Seq<usize>>::empty());
            assert(folded.1 =~= Seq::new(sentences.len(), |i: int| self.data_in_sequence@[i]@));
            assert forall|i: int| 0 <= i < sentences.len() implies self.data_in_sequence@[i]@
                == folded.1[i] by {
                assert(folded.1[i] == Seq::new(
                    sentences.len(),
                    |k: int| self.data_in_sequence@[k]@,
                )[i]);
            }
        }
    }
}

/// How often the table says a token occurred: the matching entry's count,
/// or zero when the token is not in the table.
pub open spec fn count_of(table: Seq<Option<(Seq<char>, usize)>>, t: Seq<char>) -> usize {
    let i = find_token(table, t);
    if i < 0 {
        0
    } else {
        match table[i] {
            Some(e) => e.1,
            None => 0,
        }
    }
}

/// How many entries hold a token whose count is at most the threshold.
pub open spec fn count_at_most(table: Seq<Option<(Seq<char>, usize)>>, threshold: usize) -> int
    decreases table.len(),
{
    if table.len() == 0 {
        0
    } else {
        (if table[0] matches Some(e) && e.1 <= threshold {
            1int
        } else {
            0int
        }) + count_at_most(table.drop_first(), threshold)
    }
}

/// How many entries still hold a token.
pub open spec fn live_count(table: Seq<Option<(Seq<char>, usize)>>) -> int
    decreases table.len(),
{
    if table.len() == 0 {
        0
    } else {
        (if table[0] is Some {
            1int
        } else {
            0int
        }) + live_count(table.drop_first())
    }
}

/// The first character of a token, or the nul character when it is empty.
pub open spec fn first_or_nul(t: Seq<char>) -> char {
    if t.len() >= 1 {
        t[0]
    } else {
        '\0'
    }
}

/// A token that `remove_special` drops: it starts with a special character
/// (an empty token counts too), is all ASCII, and is longer than the
/// threshold.
pub open spec fn special_token(t: Seq<char>, threshold: usize) -> bool {
    special(first_or_nul(t)) && vstd::utf8::is_ascii_chars(t) && t.len() > threshold
}

impl Tokens {
    /// How often the token occurred over all input strings, as far as a
    /// `u32` can carry it.
    pub fn get_count(&self, token_name: &str) -> (r: u32)
        ensures
            r == count_of(self.table_model(), token_name@) as u32,
    {
        let ghost m = self.table_model();
        let n = self.token_table.len();
        let mut i: usize = 0;
        while i < n
            invariant
                i <= n,
                n == self.token_table@.len(),
                m == self.table_model(),
                forall|j: int| 0 <= j < i as int ==> !entry_is(m[j], token_name@),
            ensures
                i <= n,
                n == self.token_table@.len(),
                m == self.table_model(),
                forall|j: int| 0 <= j < i as int ==> !entry_is(m[j], token_name@),
                i < n ==> entry_is(m[i as int], token_name@),
            decreases n - i,
        {
            let hit = match &self.token_table[i] {
                Some(e) => str_eq(e.token.as_str(), token_name),
                None => false,
            };
            if hit {
                proof {
                    assert(entry_is(m[i as int], token_name@));
                }
                break ;
            }
            proof {
                assert(!entry_is(m[i as int], token_name@));
            }
            i += 1;
        }
        proof {
            lemma_find_is(m, token_name@, i as int);
        }
        if i < n {
            let c = match &self.token_table[i] {
                Some(e) => e.count,
                None => 0,
            };
            return #[verifier::truncate] (c as u32);
        }
        0
    }

    /// The number of tokens still in the table.
    pub fn get_stats(&self) -> (r: usize)
        ensures
            r == live_count(self.table_model()),
    {
        let ghost m = self.table_model();
        let n = self.token_table.len();
        let mut cnt: usize = 0;
        let mut i: usize = 0;
        proof {
            assert(m.skip(0) =~= m);
        }
        while i < n
            invariant
                i <= n,
                cnt <= i,
                n == self.token_table@.len(),
                m == self.table_model(),
                cnt as int + live_count(m.skip(i as int)) == live_count(m),
            decreases n - i,
        {
            proof {
                assert(m.skip(i as int) =~= seq![m[i as int]] + m.skip(i as int + 1));
                assert((seq![m[i as int]] + m.skip(i as int + 1)).drop_first() =~= m.skip(
                    i as int + 1,
                ));
            }
            let live = match &self.token_table[i] {
                Some(_) => true,
                None => false,
            };
            if live {
                cnt += 1;
            }
            i += 1;
        }
        proof {
            assert(m.skip(n as int) =~= Seq::<Option<(Seq<char>, usize)>>::empty());
        }
        cnt
    }

    /// The number of tokens whose count is at most the threshold.
    pub fn count_below(&self, threshold: usize) -> (r: usize)
        ensures
            r == count_at_most(self.table_model(), threshold),
    {
        let ghost m = self.table_model();
        let n = self.token_table.len();
        let mut cnt: usize = 0;
        let mut i: usize = 0;
        proof {
            assert(m.skip(0) =~= m);
        }
        while i < n
            invariant
                i <= n,
                cnt <= i,
                n == self.token_table@.len(),
                m == self.table_model(),
                cnt as int + count_at_most(m.skip(i as int), threshold) == count_at_most(
                    m,
                    threshold,
                ),
            decreases n - i,
        {
            proof {
                assert(m.skip(i as int) =~= seq![m[i as int]] + m.skip(i as int + 1));
                assert((seq![m[i as int]] + m.skip(i as int + 1)).drop_first() =~= m.skip(
                    i as int + 1,
                ));
            }
            let low = match &self.token_table[i] {
                Some(e) => e.count <= threshold,
                None => false,
            };
            if low {
                cnt += 1;
            }
            i += 1;
        }
        proof {
            assert(m.skip(n as int) =~= Seq::<Option<(Seq<char>, usize)>>::empty());
        }
        cnt
    }

    /// Drops every token that occurred at most `threshold` times; the
    /// remaining tokens keep their indices.
    pub fn remove_sparse_tokens(&mut self, threshold: usize)
        ensures
            final(self).token_table@.len() == old(self).token_table@.len(),
            final(self).data_in_sequence@ == old(self).data_in_sequence@,
            forall|i: int|
                0 <= i < old(self).table_model().len() ==> final(self).table_model()[i] == (
                if old(self).table_model()[i] matches Some(e) && e.1 <= threshold {
                    None::<(Seq<char>, usize)>
                } else {
                    old(self).table_model()[i]
                }),
    {
        let ghost m0 = self.table_model();
        let ghost data0 = self.data_in_sequence@;
        let n = self.token_table.len();
        let mut i: usize = 0;
        while i < n
            invariant
                i <= n,
                n == self.token_table@.len(),
                self.data_in_sequence@ == data0,
                forall|j: int|
                    0 <= j < i as int ==> self.table_model()[j] == (if m0[j] matches Some(e)
                        && e.1 <= threshold {
                        None::<(Seq<char>, usize)>
                    } else {
                        m0[j]
                    }),
                forall|j: int| i as int <= j < n as int ==> self.table_model()[j] == m0[j],
            decreases n - i,
        {
            let drop_it = match &self.token_table[i] {
                Some(e) => e.count <= threshold,
                None => false,
            };
            proof {
                assert(drop_it == (m0[i as int] matches Some(e) && e.1 <= threshold));
            }
            let ghost mprev = self.table_model();
            let ghost tbefore = self.token_table@;
            if drop_it {
                self.token_table[i] = None;
            }
            proof {
                assert forall|j: int| 0 <= j < i as int + 1 implies self.table_model()[j] == (
                if m0[j] matches Some(e) && e.1 <= threshold {
                    None::<(Seq<char>, usize)>
                } else {
                    m0[j]
                }) by {
                    if j == i as int {
                        if drop_it {
                            assert(self.token_table@[j] == None::<TokenEntry>);
                        } else {
                            assert(self.table_model()[j] == mprev[j]);
                        }
                    } else {
                        if drop_it {
                            assert(self.token_table@[j] == tbefore[j]);
                        }
                        assert(self.table_model()[j] == mprev[j]);
                    }
                }
                assert forall|j: int| i as int + 1 <= j < n as int implies self.table_model()[j]
                    == m0[j] by {
                    if drop_it {
                        assert(self.token_table@[j] == tbefore[j]);
                    }
                    assert(self.table_model()[j] == mprev[j]);
                }
            }
            i += 1;
        }
    }

    /// Drops every token that starts with a special character, is all
    /// ASCII, and is longer than the threshold; the remaining tokens keep
    /// their indices.
    pub fn remove_special(&mut self, threshold: usize)
        ensures
            final(self).token_table@.len() == old(self).token_table@.len(),
            final(self).data_in_sequence@ == old(self).data_in_sequence@,
            forall|i: int|
                0 <= i < old(self).table_model().len() ==> final(self).table_model()[i] == (
                if old(self).table_model()[i] matches Some(e) && special_token(e.0, threshold) {
                    None::<(Seq<char>, usize)>
                } else {
                    old(self).table_model()[i]
                }),
    {
        let ghost m0 = self.table_model();
        let ghost data0 = self.data_in_sequence@;
        let n = self.token_table.len();
        let mut i: usize = 0;
        while i < n
            invariant
                i <= n,
                n == self.token_table@.len(),
                self.data_in_sequence@ == data0,
                forall|j: int|
                    0 <= j < i as int ==> self.table_model()[j] == (if m0[j] matches Some(e)
                        && special_token(e.0, threshold) {
                        None::<(Seq<char>, usize)>
                    } else {
                        m0[j]
                    }),
                forall|j: int| i as int <= j < n as int ==> self.table_model()[j] == m0[j],
            decreases n - i,
        {
            let drop_it = match &self.token_table[i] {
                Some(e) => {
                    let s = e.token.as_str();
                    let cn = s.unicode_len();
                    let c = if cn >= 1 {
                        s.get_char(0)
                    } else {
                        '\0'
                    };
                    proof {
                        assert(c == first_or_nul(e.token@));
                        if s.is_ascii() {
                            vstd::string::is_ascii_spec_bytes(s);
                            assert(s.spec_bytes().len() == s@.len());
                        }
                    }
                    crate::special_iterator::is_special(c) && s.is_ascii() && s.len() > threshold
                },
                None => false,
            };
            proof {
                assert(drop_it == (m0[i as int] matches Some(e) && special_token(
                    e.0,
                    threshold,
                )));
            }
            let ghost mprev = self.table_model();
            let ghost tbefore = self.token_table@;
            if drop_it {
                self.token_table[i] = None;
            }
            proof {
                assert forall|j: int| 0 <= j < i as int + 1 implies self.table_model()[j] == (
                if m0[j] matches Some(e) && special_token(e.0, threshold) {
                    None::<(Seq<char>, usize)>
                } else {
                    m0[j]
                }) by {
                    if j == i as int {
                        if drop_it {
                            assert(self.token_table@[j] == None::<TokenEntry>);
                        } else {
                            assert(self.table_model()[j] == mprev[j]);
                        }
                    } else {
                        if drop_it {
                            assert(self.token_table@[j] == tbefore[j]);
                        }
                        assert(self.table_model()[j] == mprev[j]);
                    }
                }
                assert forall|j: int| i as int + 1 <= j < n as int implies self.table_model()[j]
                    == m0[j] by {
                    if drop_it {
                        assert(self.token_table@[j] == tbefore[j]);
                    }
                    assert(self.table_model()[j] == mprev[j]);
                }
            }
            i += 1;
        }
    }
}

/// Copies a vector of characters.
fn copy_chars(v: &Vec<char>) -> (r: Vec<char>)
    ensures
        r@ == v@,
{
    let mut out: Vec<char> = Vec::new();
    let mut k: usize = 0;
    while k < v.len()
        invariant
            k <= v@.len(),
            out@.len() == k,
            forall|j: int| 0 <= j < k as int ==> out@[j] == v@[j],
        decreases v@.len() - k,
    {
        out.push(v[k]);
        k += 1;
    }
    proof {
        assert(out@ =~= v@);
    }
    out
}

} // verus!
