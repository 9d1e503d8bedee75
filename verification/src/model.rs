//! Mathematical model of the scanner and the parser.
//!
//! The input is modelled as a `Seq<char>`.  Character classes and maximal
//! run lengths are defined recursively; `next_tok` gives the token that a
//! scan finds at a position, and `parse_from` folds the token stream into
//! an `ArgsModel`, or `None` on a malformed input.

use vstd::prelude::*;

verus! {

/// The separators that the scanner skips between tokens.
pub open spec fn is_space(c: char) -> bool {
    c == ' ' || c == '\n' || c == '\t' || c == '\r'
}

/// The characters allowed in a flag name: ASCII letters and digits.
pub open spec fn is_alnum(c: char) -> bool {
    (97 <= c as int && c as int <= 122)  // 'a' ..= 'z'
    || (65 <= c as int && c as int <= 90)  // 'A' ..= 'Z'
    || (48 <= c as int && c as int <= 57)  // '0' ..= '9'
}

/// The characters that may appear in a bare word.
pub open spec fn is_word_char(c: char) -> bool {
    !is_space(c) && c != '"' && c != '-'
}

/// Length of the maximal run of separator characters starting at `i`.
pub open spec fn ws_run(s: Seq<char>, i: int) -> nat
    decreases s.len() - i,
{
    if i < s.len() && is_space(s[i]) {
        1 + ws_run(s, i + 1)
    } else {
        0
    }
}

/// Length of the maximal run of flag-name characters starting at `i`.
pub open spec fn alnum_run(s: Seq<char>, i: int) -> nat
    decreases s.len() - i,
{
    if i < s.len() && is_alnum(s[i]) {
        1 + alnum_run(s, i + 1)
    } else {
        0
    }
}

/// Length of the maximal run of bare-word characters starting at `i`.
pub open spec fn word_run(s: Seq<char>, i: int) -> nat
    decreases s.len() - i,
{
    if i < s.len() && is_word_char(s[i]) {
        1 + word_run(s, i + 1)
    } else {
        0
    }
}

/// Length of the maximal run of non-separator characters starting at `i`.
pub open spec fn nonspace_run(s: Seq<char>, i: int) -> nat
    decreases s.len() - i,
{
    if i < s.len() && !is_space(s[i]) {
        1 + nonspace_run(s, i + 1)
    } else {
        0
    }
}

/// Length of the maximal run of non-quote characters starting at `i`.
pub open spec fn nonquote_run(s: Seq<char>, i: int) -> nat
    decreases s.len() - i,
{
    if i < s.len() && s[i] != '"' {
        1 + nonquote_run(s, i + 1)
    } else {
        0
    }
}

pub proof fn lemma_ws_run(s: Seq<char>, i: int)
    requires
        0 <= i <= s.len(),
    ensures
        i + ws_run(s, i) <= s.len(),
        forall|m: int| i <= m < i + ws_run(s, i) ==> is_space(#[trigger] s[m]),
        i + ws_run(s, i) == s.len() || !is_space(s[i + ws_run(s, i)]),
    decreases s.len() - i,
{
    if i < s.len() && is_space(s[i]) {
        lemma_ws_run(s, i + 1);
    }
}

pub proof fn lemma_alnum_run(s: Seq<char>, i: int)
    requires
        0 <= i <= s.len(),
    ensures
        i + alnum_run(s, i) <= s.len(),
        forall|m: int| i <= m < i + alnum_run(s, i) ==> is_alnum(#[trigger] s[m]),
        i + alnum_run(s, i) == s.len() || !is_alnum(s[i + alnum_run(s, i)]),
    decreases s.len() - i,
{
    if i < s.len() && is_alnum(s[i]) {
        lemma_alnum_run(s, i + 1);
    }
}

pub proof fn lemma_word_run(s: Seq<char>, i: int)
    requires
        0 <= i <= s.len(),
    ensures
        i + word_run(s, i) <= s.len(),
        forall|m: int| i <= m < i + word_run(s, i) ==> is_word_char(#[trigger] s[m]),
        i + word_run(s, i) == s.len() || !is_word_char(s[i + word_run(s, i)]),
    decreases s.len() - i,
{
    if i < s.len() && is_word_char(s[i]) {
        lemma_word_run(s, i + 1);
    }
}

pub proof fn lemma_nonspace_run(s: Seq<char>, i: int)
    requires
        0 <= i <= s.len(),
    ensures
        i + nonspace_run(s, i) <= s.len(),
    decreases s.len() - i,
{
    if i < s.len() && !is_space(s[i]) {
        lemma_nonspace_run(s, i + 1);
    }
}

pub proof fn lemma_nonquote_run(s: Seq<char>, i: int)
    requires
        0 <= i <= s.len(),
    ensures
        i + nonquote_run(s, i) <= s.len(),
        forall|m: int| i <= m < i + nonquote_run(s, i) ==> #[trigger] s[m] != '"',
        i + nonquote_run(s, i) == s.len() || s[i + nonquote_run(s, i)] == '"',
    decreases s.len() - i,
{
    if i < s.len() && s[i] != '"' {
        lemma_nonquote_run(s, i + 1);
    }
}

/// A token of the input, carrying its payload characters.
pub enum Token {
    /// A short-flag cluster: the characters after the single `-`.
    Flags(Seq<char>),
    /// A positional or value string: a bare word, or the contents of a
    /// quoted string with the quotes stripped.
    Arg(Seq<char>),
    /// A long-flag name: the characters after the `--`.
    Long(Seq<char>),
}

/// What a scan finds at a position: the end of the input, a token together
/// with the position just after it, or a malformed piece of input.
pub enum Next {
    End,
    Tok(Token, int),
    Bad,
}

/// The token found at position `i`, after skipping separators.
///
/// Precedence: a leading `-` starts a long flag when a second `-` and a
/// flag-name character follow, otherwise a short-flag cluster when a
/// flag-name character follows, and is malformed otherwise; a leading `"`
/// starts a quoted string, malformed when no closing quote exists; any
/// other character starts a bare word.  Each token payload is maximal:
/// it extends as far as its character class allows.
pub open spec fn next_tok(s: Seq<char>, i: int) -> Next {
    let j = i + ws_run(s, i);
    if j >= s.len() {
        Next::End
    } else if s[j] == '-' {
        if j + 2 < s.len() && s[j + 1] == '-' && is_alnum(s[j + 2]) {
            let e = j + 3 + alnum_run(s, j + 3);
            Next::Tok(Token::Long(s.subrange(j + 2, e)), e)
        } else if j + 1 < s.len() && is_alnum(s[j + 1]) {
            let e = j + 2 + alnum_run(s, j + 2);
            Next::Tok(Token::Flags(s.subrange(j + 1, e)), e)
        } else {
            Next::Bad
        }
    } else if s[j] == '"' {
        let q = j + 1 + nonquote_run(s, j + 1);
        if q < s.len() {
            Next::Tok(Token::Arg(s.subrange(j + 1, q)), q + 1)
        } else {
            Next::Bad
        }
    } else {
        let e = j + 1 + word_run(s, j + 1);
        Next::Tok(Token::Arg(s.subrange(j, e)), e)
    }
}

/// A token starts after the scan position and ends within the input.
pub proof fn lemma_next_tok_advances(s: Seq<char>, i: int)
    requires
        0 <= i,
    ensures
        forall|t: Token, k: int| next_tok(s, i) == Next::Tok(t, k) ==> i < k <= s.len(),
{
    if i <= s.len() {
        lemma_ws_run(s, i);
        let j = i + ws_run(s, i);
        if j < s.len() {
            if s[j] == '-' {
                if j + 2 < s.len() && s[j + 1] == '-' && is_alnum(s[j + 2]) {
                    lemma_alnum_run(s, j + 3);
                } else if j + 1 < s.len() && is_alnum(s[j + 1]) {
                    lemma_alnum_run(s, j + 2);
                }
            } else if s[j] == '"' {
                lemma_nonquote_run(s, j + 1);
            } else {
                lemma_word_run(s, j + 1);
            }
        }
    }
}

/// The abstract parse result: keyword pairs as a map, positional
/// arguments as a sequence in order of appearance, and per-character
/// flag counts as a map.
#[verifier::ext_equal]
pub struct ArgsModel {
    pub kwargs: Map<Seq<char>, Seq<char>>,
    pub args: Seq<Seq<char>>,
    pub flags: Map<char, nat>,
}

/// The result of parsing an input with no tokens at all.
pub open spec fn empty_model() -> ArgsModel {
    ArgsModel { kwargs: Map::empty(), args: Seq::empty(), flags: Map::empty() }
}

/// One more occurrence of `c`: its count rises by one, from zero when absent.
pub open spec fn bump(m: Map<char, nat>, c: char) -> Map<char, nat> {
    m.insert(c, (if m.contains_key(c) { m[c] } else { 0 }) + 1)
}

/// Count every character of `cs` in order.
pub open spec fn bump_all(m: Map<char, nat>, cs: Seq<char>) -> Map<char, nat>
    decreases cs.len(),
{
    if cs.len() == 0 {
        m
    } else {
        bump_all(bump(m, cs[0]), cs.drop_first())
    }
}

/// Counting one character more at the end counts it last.
pub proof fn lemma_bump_all_push(m: Map<char, nat>, xs: Seq<char>, c: char)
    ensures
        bump_all(m, xs.push(c)) == bump(bump_all(m, xs), c),
    decreases xs.len(),
{
    if xs.len() == 0 {
        reveal_with_fuel(bump_all, 2);
        assert(xs.push(c).drop_first() =~= Seq::<char>::empty());
    } else {
        assert(xs.push(c)[0] == xs[0]);
        assert(xs.push(c).drop_first() =~= xs.drop_first().push(c));
        lemma_bump_all_push(bump(m, xs[0]), xs.drop_first(), c);
    }
}

/// Fold the tokens from position `i` onwards into `acc`.
///
/// A flag cluster raises the count of each of its characters; an argument
/// string is appended to the positionals; a long-flag name must be
/// followed immediately by an argument-string token, which becomes its
/// value (a repeated name is overwritten); any malformed piece of input,
/// or a long flag without a value, fails the whole parse.
pub open spec fn parse_from(s: Seq<char>, i: int, acc: ArgsModel) -> Option<ArgsModel>
    decreases s.len() - i,
        when 0 <= i
        via parse_from_decreases
{
    match next_tok(s, i) {
        Next::End => Some(acc),
        Next::Bad => None,
        Next::Tok(t, k) => match t {
            Token::Flags(cs) => parse_from(
                s,
                k,
                ArgsModel { flags: bump_all(acc.flags, cs), ..acc },
            ),
            Token::Arg(a) => parse_from(s, k, ArgsModel { args: acc.args.push(a), ..acc }),
            Token::Long(name) => match next_tok(s, k) {
                Next::Tok(Token::Arg(v), k2) => parse_from(
                    s,
                    k2,
                    ArgsModel { kwargs: acc.kwargs.insert(name, v), ..acc },
                ),
                _ => None,
            },
        },
    }
}

#[via_fn]
proof fn parse_from_decreases(s: Seq<char>, i: int, acc: ArgsModel) {
    lemma_next_tok_advances(s, i);
    if let Next::Tok(Token::Long(_), k) = next_tok(s, i) {
        lemma_next_tok_advances(s, k);
    }
}

/// The whole input parsed from the start with empty accumulators.
pub open spec fn parse_spec(s: Seq<char>) -> Option<ArgsModel> {
    parse_from(s, 0, empty_model())
}

} // verus!
