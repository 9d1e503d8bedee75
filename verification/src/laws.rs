//! Properties of the parser that go beyond a single call.

use vstd::prelude::*;
use crate::args::{Args, parse_post};
use crate::model::{
    ArgsModel, Next, Token, empty_model, is_space, is_word_char, lemma_next_tok_advances,
    lemma_nonspace_run, lemma_ws_run, next_tok, nonspace_run, parse_from, parse_spec, word_run,
    ws_run,
};

verus! {

/// Parsing is a pure function of the input: any two results that satisfy
/// the contract of `Args::parse` for the same character sequence agree —
/// both succeed with the same abstract value, or both fail.
pub proof fn lemma_parse_deterministic<'a>(
    s: Seq<char>,
    r1: Result<Args<'a>, ()>,
    r2: Result<Args<'a>, ()>,
)
    requires
        parse_post(s, r1),
        parse_post(s, r2),
    ensures
        r1 is Ok <==> r2 is Ok,
        r1 is Ok ==> r1->Ok_0.model() == r2->Ok_0.model(),
{
}

/// An input that holds nothing but separators and bare-word characters.
pub open spec fn plain_input(s: Seq<char>) -> bool {
    forall|m: int| 0 <= m < s.len() ==> is_space(#[trigger] s[m]) || is_word_char(s[m])
}

/// The input split at separators: the maximal separator-free runs, in order.
pub open spec fn split_words(s: Seq<char>, i: int) -> Seq<Seq<char>>
    decreases s.len() - i,
        when 0 <= i
        via split_words_decreases
{
    let j = i + ws_run(s, i);
    if j >= s.len() {
        Seq::empty()
    } else {
        let e = j + 1 + nonspace_run(s, j + 1);
        seq![s.subrange(j, e)] + split_words(s, e)
    }
}

#[via_fn]
proof fn split_words_decreases(s: Seq<char>, i: int) {
    if 0 <= i <= s.len() {
        lemma_ws_run(s, i);
        let j = i + ws_run(s, i);
        if j < s.len() {
            lemma_nonspace_run(s, j + 1);
        }
    }
}

/// On a plain input the bare-word runs are exactly the separator-free runs.
proof fn lemma_run_eq_on_plain(s: Seq<char>, i: int)
    requires
        plain_input(s),
        0 <= i,
    ensures
        word_run(s, i) == nonspace_run(s, i),
    decreases s.len() - i,
{
    if i < s.len() {
        lemma_run_eq_on_plain(s, i + 1);
    }
}

/// On a plain input, folding from any position succeeds and appends
/// exactly the remaining separator-split words to the accumulator.
proof fn lemma_plain_from(s: Seq<char>, i: int, acc: ArgsModel)
    requires
        plain_input(s),
        0 <= i <= s.len(),
    ensures
        parse_from(s, i, acc) == Some(
            ArgsModel { args: acc.args + split_words(s, i), ..acc },
        ),
    decreases s.len() - i,
{
    lemma_ws_run(s, i);
    let j = i + ws_run(s, i);
    if j >= s.len() {
        assert(acc.args + split_words(s, i) =~= acc.args);
        assert(ArgsModel { args: acc.args + split_words(s, i), ..acc } =~~= acc);
    } else {
        assert(is_word_char(s[j]));
        lemma_run_eq_on_plain(s, j + 1);
        let e = j + 1 + word_run(s, j + 1);
        let w = s.subrange(j, e);
        assert(next_tok(s, i) == Next::Tok(Token::Arg(w), e));
        lemma_next_tok_advances(s, i);
        lemma_plain_from(s, e, ArgsModel { args: acc.args.push(w), ..acc });
        assert(acc.args.push(w) + split_words(s, e) =~= acc.args + (seq![w] + split_words(
            s,
            e,
        )));
    }
}

/// On an input of nothing but separators and bare-word characters, the
/// parse succeeds, its positional arguments are exactly the
/// separator-split words of the input in order, and no keyword pair and
/// no flag is recorded.
pub proof fn lemma_plain_words(s: Seq<char>)
    requires
        plain_input(s),
    ensures
        parse_spec(s) == Some(
            ArgsModel { kwargs: Map::empty(), args: split_words(s, 0), flags: Map::empty() },
        ),
{
    lemma_plain_from(s, 0, empty_model());
    assert(Seq::<Seq<char>>::empty() + split_words(s, 0) =~= split_words(s, 0));
    assert(ArgsModel { args: Seq::<Seq<char>>::empty() + split_words(s, 0), ..empty_model() }
        =~~= (ArgsModel {
        kwargs: Map::empty(),
        args: split_words(s, 0),
        flags: Map::empty(),
    }));
}

} // verus!
