//! The parse result and the parser.

use vstd::prelude::*;
use crate::model::{
    ArgsModel, bump, bump_all, empty_model, lemma_bump_all_push, parse_from, parse_spec,
};
use crate::scan::{ScanTok, next_token, str_eq};
use crate::table::{
    counts_map, counts_sum, counts_unique, lemma_counts_map_contains, lemma_counts_map_last,
    lemma_counts_map_remove, lemma_counts_sum_remove, lemma_pairs_map_contains,
    lemma_pairs_map_last, lemma_pairs_map_remove, pairs_map, pairs_unique,
};

verus! {

/// A parsed command string.
///
/// `args` holds the positional arguments in order of appearance;
/// `kwargs` holds one `(name, value)` pair per long flag, the last
/// occurrence of a name winning; `flags` holds one `(character, count)`
/// pair per short flag seen.  All string payloads borrow from the parsed
/// input.  The two pair vectors represent maps and are kept free of
/// duplicate keys; their order carries no meaning.
#[derive(Debug, PartialEq, Eq)]
pub struct Args<'a> {
    pub kwargs: Vec<(&'a str, &'a str)>,
    pub args: Vec<&'a str>,
    pub flags: Vec<(char, u64)>,
}

impl<'a> Args<'a> {
    /// The keyword map this value represents.
    pub open spec fn kwargs_map(&self) -> Map<Seq<char>, Seq<char>> {
        pairs_map(self.kwargs@)
    }

    /// The flag-count map this value represents.
    pub open spec fn flags_map(&self) -> Map<char, nat> {
        counts_map(self.flags@)
    }

    /// The positional arguments this value represents.
    pub open spec fn args_seq(&self) -> Seq<Seq<char>> {
        self.args@.map_values(|a: &str| a@)
    }

    /// The abstract value of the whole result.
    pub open spec fn model(&self) -> ArgsModel {
        ArgsModel { kwargs: self.kwargs_map(), args: self.args_seq(), flags: self.flags_map() }
    }

    /// Both pair vectors are free of duplicate keys, and every flag
    /// count is at least one.
    pub open spec fn wf(&self) -> bool {
        &&& pairs_unique(self.kwargs@)
        &&& counts_unique(self.flags@)
        &&& forall|p: int| 0 <= p < self.flags@.len() ==> (#[trigger] self.flags@[p]).1 >= 1
    }
}

impl<'a> Default for Args<'a> {
    /// The all-empty result: no positionals, no keywords, no flags.
    fn default() -> (r: Self)
        ensures
            r.model() == empty_model(),
            r.wf(),
    {
        let r = Args { kwargs: Vec::new(), args: Vec::new(), flags: Vec::new() };
        proof {
            assert(r.args_seq() =~= Seq::<Seq<char>>::empty());
        }
        r
    }
}

/// The abstract value represented by the three vectors of a result.
pub open spec fn vecs_model(
    kw: Seq<(&str, &str)>,
    ar: Seq<&str>,
    fl: Seq<(char, u64)>,
) -> ArgsModel {
    ArgsModel { kwargs: pairs_map(kw), args: ar.map_values(|a: &str| a@), flags: counts_map(fl) }
}

/// What `parse` promises of its result: success gives exactly the model
/// parser's value, well formed; failure happens exactly when the model
/// parser fails.
pub open spec fn parse_post<'a>(s: Seq<char>, r: Result<Args<'a>, ()>) -> bool {
    match r {
        Ok(a) => parse_spec(s) == Some(a.model()) && a.wf(),
        Err(_) => parse_spec(s) is None,
    }
}

/// Raise the count of `c` by one, keeping the vector a map: the entry
/// for `c` is replaced, or a fresh `(c, 1)` entry is added.
fn bump_flag(flags: &mut Vec<(char, u64)>, c: char)
    requires
        counts_unique(old(flags)@),
        forall|p: int| 0 <= p < old(flags)@.len() ==> (#[trigger] old(flags)@[p]).1 >= 1,
        counts_sum(old(flags)@) < u64::MAX,
    ensures
        counts_map(final(flags)@) == bump(counts_map(old(flags)@), c),
        counts_unique(final(flags)@),
        forall|p: int| 0 <= p < final(flags)@.len() ==> (#[trigger] final(flags)@[p]).1 >= 1,
        counts_sum(final(flags)@) == counts_sum(old(flags)@) + 1,
{
    let ghost ps0 = flags@;
    let mut p: usize = 0;
    loop
        invariant
            ps0 == old(flags)@,
            flags@ == ps0,
            counts_unique(ps0),
            forall|q: int| 0 <= q < ps0.len() ==> (#[trigger] ps0[q]).1 >= 1,
            counts_sum(ps0) < u64::MAX,
            p <= ps0.len(),
            forall|m: int| 0 <= m < p ==> (#[trigger] ps0[m]).0 != c,
        decreases ps0.len() - p,
    {
        if p < flags.len() {
            if flags[p].0 == c {
                let cnt = flags[p].1;
                proof {
                    assert(forall|q: int| p < q < ps0.len() ==> ps0[q].0 != ps0[p as int].0);
                    lemma_counts_map_last(ps0, p as int);
                    lemma_counts_map_remove(ps0, p as int);
                    lemma_counts_sum_remove(ps0, p as int);
                }
                flags.remove(p);
                flags.push((c, cnt + 1));
                proof {
                    let ps1 = ps0.remove(p as int);
                    assert(flags@.drop_last() =~= ps1);
                    assert(counts_map(flags@) =~= bump(counts_map(ps0), c));
                    assert(forall|a: int, b: int|
                        0 <= a < b < flags@.len() ==> (#[trigger] flags@[a]).0 != (
                        #[trigger] flags@[b]).0) by {
                        assert(forall|q: int| 0 <= q < ps1.len() ==> (#[trigger] ps1[q]).0 != c);
                    }
                    lemma_counts_sum_remove(flags@, flags@.len() - 1);
                    assert(flags@.remove(flags@.len() - 1) =~= ps1);
                }
                return ;
            }
            p = p + 1;
        } else {
            proof {
                lemma_counts_map_contains(ps0, c);
            }
            flags.push((c, 1));
            proof {
                assert(flags@.drop_last() =~= ps0);
                assert(counts_map(flags@) =~= bump(counts_map(ps0), c));
                lemma_counts_sum_remove(flags@, flags@.len() - 1);
                assert(flags@.remove(flags@.len() - 1) =~= ps0);
            }
            return ;
        }
    }
}

/// Record a `(name, value)` pair, keeping the vector a map: the entry
/// with the same name is replaced, or a fresh entry is added.
fn kwargs_insert<'a>(kwargs: &mut Vec<(&'a str, &'a str)>, name: &'a str, value: &'a str)
    requires
        pairs_unique(old(kwargs)@),
    ensures
        pairs_map(final(kwargs)@) == pairs_map(old(kwargs)@).insert(name@, value@),
        pairs_unique(final(kwargs)@),
{
    let ghost ps0 = kwargs@;
    let mut p: usize = 0;
    loop
        invariant
            ps0 == old(kwargs)@,
            kwargs@ == ps0,
            pairs_unique(ps0),
            p <= ps0.len(),
            forall|m: int| 0 <= m < p ==> (#[trigger] ps0[m]).0@ != name@,
        decreases ps0.len() - p,
    {
        if p < kwargs.len() {
            if str_eq(kwargs[p].0, name) {
                proof {
                    lemma_pairs_map_remove(ps0, p as int);
                }
                kwargs.remove(p);
                kwargs.push((name, value));
                proof {
                    let ps1 = ps0.remove(p as int);
                    assert(kwargs@.drop_last() =~= ps1);
                    assert(pairs_map(kwargs@) =~= pairs_map(ps0).insert(name@, value@));
                    assert(forall|a: int, b: int|
                        0 <= a < b < kwargs@.len() ==> (#[trigger] kwargs@[a]).0@ != (
                        #[trigger] kwargs@[b]).0@) by {
                        assert(forall|q: int| 0 <= q < ps1.len() ==> (#[trigger] ps1[q]).0@ != name@);
                    }
                }
                return ;
            }
            p = p + 1;
        } else {
            kwargs.push((name, value));
            proof {
                assert(kwargs@.drop_last() =~= ps0);
                assert(pairs_map(kwargs@) =~= pairs_map(ps0).insert(name@, value@));
            }
            return ;
        }
    }
}

impl<'a> Args<'a> {
    /// Parse a whole command string.
    ///
    /// On success the result's abstract value is exactly what the model
    /// parser computes, and the result is well formed; the parse fails
    /// exactly when the model parser fails: on any malformed piece of
    /// input, or on a long flag that is not immediately followed by an
    /// argument string.
    pub fn parse(s: &'a str) -> (r: Result<Self, ()>)
        ensures
            parse_post(s@, r),
    {
        let ghost input = s@;
        let len = s.unicode_len();
        let mut kwargs: Vec<(&'a str, &'a str)> = Vec::new();
        let mut args: Vec<&'a str> = Vec::new();
        let mut flags: Vec<(char, u64)> = Vec::new();
        let mut pos: usize = 0;
        proof {
            assert(vecs_model(kwargs@, args@, flags@) =~~= empty_model());
        }
        loop
            invariant
                input == s@,
                len == input.len(),
                pos <= len,
                pairs_unique(kwargs@),
                counts_unique(flags@),
                forall|p: int| 0 <= p < flags@.len() ==> (#[trigger] flags@[p]).1 >= 1,
                counts_sum(flags@) <= pos,
                parse_from(input, pos as int, vecs_model(kwargs@, args@, flags@)) == parse_spec(
                    input,
                ),
            decreases len - pos,
        {
            let ghost acc = vecs_model(kwargs@, args@, flags@);
            match next_token(s, len, pos) {
                ScanTok::End => {
                    let r = Args { kwargs, args, flags };
                    return Ok(r);
                },
                ScanTok::Bad => {
                    return Err(());
                },
                ScanTok::Arg(a, en) => {
                    args.push(a);
                    proof {
                        assert(args@.map_values(|x: &str| x@) =~= acc.args.push(a@));
                        assert(vecs_model(kwargs@, args@, flags@) == ArgsModel {
                            args: acc.args.push(a@),
                            ..acc
                        });
                    }
                    pos = en;
                },
                ScanTok::Flags(st, en) => {
                    let ghost cs = input.subrange(st as int, en as int);
                    let ghost kw0 = kwargs@;
                    let ghost ar0 = args@;
                    let ghost fl0 = flags@;
                    let ghost m0 = counts_map(flags@);
                    let ghost sum0 = counts_sum(flags@);
                    let mut p = st;
                    proof {
                        assert(cs.subrange(0, 0) =~= Seq::<char>::empty());
                    }
                    while p < en
                        invariant
                            input == s@,
                            len == input.len(),
                            pos < st <= p <= en <= len,
                            cs == input.subrange(st as int, en as int),
                            kwargs@ == kw0,
                            args@ == ar0,
                            acc == vecs_model(kw0, ar0, fl0),
                            m0 == counts_map(fl0),
                            counts_unique(flags@),
                            forall|q: int| 0 <= q < flags@.len() ==> (#[trigger] flags@[q]).1
                                >= 1,
                            sum0 <= pos,
                            counts_sum(flags@) == sum0 + (p - st),
                            counts_map(flags@) == bump_all(m0, cs.subrange(0, p - st)),
                        decreases en - p,
                    {
                        let c = s.get_char(p);
                        proof {
                            lemma_bump_all_push(m0, cs.subrange(0, p - st), c);
                            assert(cs.subrange(0, p + 1 - st) =~= cs.subrange(0, p - st).push(c));
                        }
                        bump_flag(&mut flags, c);
                        p = p + 1;
                    }
                    proof {
                        assert(cs.subrange(0, en - st) =~= cs);
                        assert(vecs_model(kwargs@, args@, flags@) =~~= (ArgsModel {
                            flags: bump_all(acc.flags, cs),
                            ..acc
                        }));
                    }
                    pos = en;
                },
                ScanTok::Long(nm, en) => {
                    match next_token(s, len, en) {
                        ScanTok::Arg(v, en2) => {
                            kwargs_insert(&mut kwargs, nm, v);
                            proof {
                                assert(vecs_model(kwargs@, args@, flags@) == ArgsModel {
                                    kwargs: acc.kwargs.insert(nm@, v@),
                                    ..acc
                                });
                            }
                            pos = en2;
                        },
                        _ => {
                            return Err(());
                        },
                    }
                },
            }
        }
    }

    /// The value of the long flag `name`, when one was given.
    pub fn kwarg(&self, name: &str) -> (r: Option<&'a str>)
        ensures
            match r {
                Some(v) => self.kwargs_map().contains_key(name@) && v@ == self.kwargs_map().index(
                    name@,
                ),
                None => !self.kwargs_map().contains_key(name@),
            },
    {
        let mut p = self.kwargs.len();
        loop
            invariant
                p <= self.kwargs@.len(),
                forall|q: int| p <= q < self.kwargs@.len() ==> (#[trigger] self.kwargs@[q]).0@
                    != name@,
            decreases p,
        {
            if p == 0 {
                proof {
                    lemma_pairs_map_contains(self.kwargs@, name@);
                }
                return None;
            }
            p = p - 1;
            if str_eq(self.kwargs[p].0, name) {
                proof {
                    lemma_pairs_map_last(self.kwargs@, p as int);
                }
                return Some(self.kwargs[p].1);
            }
        }
    }

    /// How many times the short flag `c` occurred; zero when it never did.
    pub fn flag_count(&self, c: char) -> (r: u64)
        ensures
            r as nat == (if self.flags_map().contains_key(c) {
                self.flags_map()[c]
            } else {
                0nat
            }),
    {
        let mut p = self.flags.len();
        loop
            invariant
                p <= self.flags@.len(),
                forall|q: int| p <= q < self.flags@.len() ==> (#[trigger] self.flags@[q]).0 != c,
            decreases p,
        {
            if p == 0 {
                proof {
                    lemma_counts_map_contains(self.flags@, c);
                }
                return 0;
            }
            p = p - 1;
            if self.flags[p].0 == c {
                proof {
                    lemma_counts_map_last(self.flags@, p as int);
                }
                return self.flags[p].1;
            }
        }
    }
}

} // verus!
