//! The executable scanner.
//!
//! Each function walks the input by character position and is proved to
//! compute exactly the run lengths and tokens of the model in
//! [`crate::model`].

use vstd::prelude::*;
use crate::model::{
    is_space, is_alnum, is_word_char, ws_run, alnum_run, word_run, nonquote_run, next_tok, Next,
    Token,
};

verus! {

/// A token as the scanner hands it to the parser.  A flag cluster is
/// reported by the positions of its characters; string payloads are
/// slices of the input.
pub enum ScanTok<'a> {
    /// End of input.
    End,
    /// A short-flag cluster: character positions `start .. end`, and the
    /// position after the token.
    Flags(usize, usize),
    /// An argument string and the position after the token.
    Arg(&'a str, usize),
    /// A long-flag name and the position after the token.
    Long(&'a str, usize),
    /// Malformed input at this position.
    Bad,
}

fn is_space_c(c: char) -> (r: bool)
    ensures
        r == is_space(c),
{
    c == ' ' || c == '\n' || c == '\t' || c == '\r'
}

fn is_alnum_c(c: char) -> (r: bool)
    ensures
        r == is_alnum(c),
{
    let u = c as u32;
    (97 <= u && u <= 122) || (65 <= u && u <= 90) || (48 <= u && u <= 57)
}

fn is_word_c(c: char) -> (r: bool)
    ensures
        r == is_word_char(c),
{
    !is_space_c(c) && c != '"' && c != '-'
}

fn scan_ws(s: &str, len: usize, i: usize) -> (j: usize)
    requires
        len == s@.len(),
        i <= len,
    ensures
        i <= j <= len,
        j == i + ws_run(s@, i as int),
{
    let mut j = i;
    loop
        invariant
            len == s@.len(),
            i <= j <= len,
            i + ws_run(s@, i as int) == j + ws_run(s@, j as int),
        decreases len - j,
    {
        if j < len && is_space_c(s.get_char(j)) {
            assert(ws_run(s@, j as int) == 1 + ws_run(s@, j + 1));
            j = j + 1;
        } else {
            assert(ws_run(s@, j as int) == 0);
            return j;
        }
    }
}

fn scan_alnum(s: &str, len: usize, i: usize) -> (j: usize)
    requires
        len == s@.len(),
        i <= len,
    ensures
        i <= j <= len,
        j == i + alnum_run(s@, i as int),
{
    let mut j = i;
    loop
        invariant
            len == s@.len(),
            i <= j <= len,
            i + alnum_run(s@, i as int) == j + alnum_run(s@, j as int),
        decreases len - j,
    {
        if j < len && is_alnum_c(s.get_char(j)) {
            assert(alnum_run(s@, j as int) == 1 + alnum_run(s@, j + 1));
            j = j + 1;
        } else {
            assert(alnum_run(s@, j as int) == 0);
            return j;
        }
    }
}

fn scan_word(s: &str, len: usize, i: usize) -> (j: usize)
    requires
        len == s@.len(),
        i <= len,
    ensures
        i <= j <= len,
        j == i + word_run(s@, i as int),
{
    let mut j = i;
    loop
        invariant
            len == s@.len(),
            i <= j <= len,
            i + word_run(s@, i as int) == j + word_run(s@, j as int),
        decreases len - j,
    {
        if j < len && is_word_c(s.get_char(j)) {
            assert(word_run(s@, j as int) == 1 + word_run(s@, j + 1));
            j = j + 1;
        } else {
            assert(word_run(s@, j as int) == 0);
            return j;
        }
    }
}

fn scan_nonquote(s: &str, len: usize, i: usize) -> (j: usize)
    requires
        len == s@.len(),
        i <= len,
    ensures
        i <= j <= len,
        j == i + nonquote_run(s@, i as int),
{
    let mut j = i;
    loop
        invariant
            len == s@.len(),
            i <= j <= len,
            i + nonquote_run(s@, i as int) == j + nonquote_run(s@, j as int),
        decreases len - j,
    {
        if j < len && s.get_char(j) != '"' {
            assert(nonquote_run(s@, j as int) == 1 + nonquote_run(s@, j + 1));
            j = j + 1;
        } else {
            assert(nonquote_run(s@, j as int) == 0);
            return j;
        }
    }
}

/// Scan the token at position `i`, mirroring [`next_tok`] exactly.
pub fn next_token<'a>(s: &'a str, len: usize, i: usize) -> (r: ScanTok<'a>)
    requires
        len == s@.len(),
        i <= len,
    ensures
        (match r {
            ScanTok::End => next_tok(s@, i as int) == Next::End,
            ScanTok::Bad => next_tok(s@, i as int) == Next::Bad,
            ScanTok::Flags(st, en) => i < st <= en <= len && next_tok(s@, i as int)
                == Next::Tok(Token::Flags(s@.subrange(st as int, en as int)), en as int),
            ScanTok::Arg(a, en) => i < en <= len && next_tok(s@, i as int)
                == Next::Tok(Token::Arg(a@), en as int),
            ScanTok::Long(nm, en) => i < en <= len && next_tok(s@, i as int)
                == Next::Tok(Token::Long(nm@), en as int),
        }),
{
    let j = scan_ws(s, len, i);
    if j == len {
        return ScanTok::End;
    }
    let c = s.get_char(j);
    if c == '-' {
        if j + 1 < len && s.get_char(j + 1) == '-' {
            if j + 2 < len && is_alnum_c(s.get_char(j + 2)) {
                let e = scan_alnum(s, len, j + 3);
                ScanTok::Long(s.substring_char(j + 2, e), e)
            } else {
                ScanTok::Bad
            }
        } else if j + 1 < len && is_alnum_c(s.get_char(j + 1)) {
            let e = scan_alnum(s, len, j + 2);
            ScanTok::Flags(j + 1, e)
        } else {
            ScanTok::Bad
        }
    } else if c == '"' {
        let q = scan_nonquote(s, len, j + 1);
        if q < len {
            ScanTok::Arg(s.substring_char(j + 1, q), q + 1)
        } else {
            ScanTok::Bad
        }
    } else {
        let e = scan_word(s, len, j + 1);
        ScanTok::Arg(s.substring_char(j, e), e)
    }
}

/// Character-for-character string equality, decided on the views.
pub fn str_eq(a: &str, b: &str) -> (r: bool)
    ensures
        r == (a@ == b@),
{
    let alen = a.unicode_len();
    let blen = b.unicode_len();
    if alen != blen {
        return false;
    }
    let mut p: usize = 0;
    loop
        invariant
            alen == a@.len(),
            blen == b@.len(),
            alen == blen,
            p <= alen,
            forall|m: int| 0 <= m < p ==> a@[m] == b@[m],
        decreases alen - p,
    {
        if p < alen {
            if a.get_char(p) != b.get_char(p) {
                return false;
            }
            p = p + 1;
        } else {
            assert(a@ =~= b@);
            return true;
        }
    }
}

} // verus!
