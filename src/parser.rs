use vstd::prelude::*;

use crate::arg::{long_index, short_index, Arg, Args, Flag, TakesValue};
use crate::bytes::owned_bytes;
use crate::error::{ParseError, ParseFailure};
use crate::matched::{entries_view, entry_view, tokens_view, Entry, MatchedFlags, Matches, MatchesView};

verus! {

/// The byte `-`.
pub const DASH: u8 = 45;

/// The byte `=`.
pub const EQUALS: u8 = 61;

/// Whether `p` is where `r` splits into a name and a value: the first `=`
/// with at least one byte before it and at least one after it.
pub open spec fn splits_at(r: Seq<u8>, p: int) -> bool {
    &&& 1 <= p < r.len() - 1
    &&& r[p] == EQUALS
    &&& forall|q: int| 1 <= q < p ==> r[q] != EQUALS
}

/// The name and the value on either side of the `=` that splits `r`, if
/// there is one.
pub open spec fn split_spec(r: Seq<u8>) -> Option<(Seq<u8>, Seq<u8>)> {
    if exists|p: int| splits_at(r, p) {
        let p = choose|p: int| splits_at(r, p);
        Some((r.take(p), r.skip(p + 1)))
    } else {
        None
    }
}

/// The result of one flag token: the occurrences it records, and the flag,
/// if any, that still waits for the next token as its value.
pub type TokenOutcome = Result<(Seq<Entry>, Option<Flag>), ParseFailure>;

/// What a long-flag token does, given `r`, the token without its two dashes.
pub open spec fn long_token(reg: Seq<&Arg>, r: Seq<u8>) -> TokenOutcome {
    match split_spec(r) {
        Some((name, value)) => match long_index(reg, name) {
            None => Err(ParseFailure::UnknownLong(name)),
            Some(k) => match reg[k].takes_value {
                TakesValue::Necessary => Ok((seq![(Flag::Long(reg[k].long), Some(value))], None)),
                TakesValue::Forbidden => Err(ParseFailure::ForbiddenValue(Flag::Long(reg[k].long))),
            },
        },
        None => match long_index(reg, r) {
            None => Err(ParseFailure::UnknownLong(r)),
            Some(k) => match reg[k].takes_value {
                TakesValue::Forbidden => Ok((seq![(Flag::Long(reg[k].long), None)], None)),
                TakesValue::Necessary => Ok((seq![], Some(Flag::Long(reg[k].long)))),
            },
        },
    }
}

/// The occurrences recorded for the bytes of `bs` from position `j` on,
/// each of which must be a short flag that takes no value: these are the
/// bytes before the last one in a cluster with `=`.
pub open spec fn short_head(reg: Seq<&Arg>, bs: Seq<u8>, j: int) -> Result<Seq<Entry>, ParseFailure>
    decreases bs.len() - j,
{
    if j < 0 || j >= bs.len() {
        Ok(seq![])
    } else {
        match short_index(reg, bs[j]) {
            None => Err(ParseFailure::UnknownShort(bs[j])),
            Some(k) => match reg[k].takes_value {
                TakesValue::Necessary => Err(ParseFailure::NeedsValue(Flag::Short(bs[j]))),
                TakesValue::Forbidden => match short_head(reg, bs, j + 1) {
                    Ok(es) => Ok(seq![(Flag::Short(bs[j]), None)] + es),
                    Err(e) => Err(e),
                },
            },
        }
    }
}

/// What the bytes of a short cluster `r` without `=` do from position `j`
/// on: flags that take no value are recorded one by one, and the first flag
/// that needs one takes the rest of the cluster, or else the next token.
pub open spec fn short_walk(reg: Seq<&Arg>, r: Seq<u8>, j: int) -> TokenOutcome
    decreases r.len() - j,
{
    if j < 0 || j >= r.len() {
        Ok((seq![], None))
    } else {
        match short_index(reg, r[j]) {
            None => Err(ParseFailure::UnknownShort(r[j])),
            Some(k) => match reg[k].takes_value {
                TakesValue::Necessary => if j + 1 < r.len() {
                    Ok((seq![(Flag::Short(r[j]), Some(r.skip(j + 1)))], None))
                } else {
                    Ok((seq![], Some(Flag::Short(r[j]))))
                },
                TakesValue::Forbidden => match short_walk(reg, r, j + 1) {
                    Ok((es, w)) => Ok((seq![(Flag::Short(r[j]), None)] + es, w)),
                    Err(e) => Err(e),
                },
            },
        }
    }
}

/// What a short-flag token does, given `r`, the token without its dash.
pub open spec fn short_token(reg: Seq<&Arg>, r: Seq<u8>) -> TokenOutcome {
    match split_spec(r) {
        Some((before, value)) => {
            let last = before.last();
            match short_head(reg, before.drop_last(), 0) {
                Err(e) => Err(e),
                Ok(es) => match short_index(reg, last) {
                    None => Err(ParseFailure::UnknownShort(last)),
                    Some(k) => match reg[k].takes_value {
                        TakesValue::Necessary => Ok((es.push((Flag::Short(last), Some(value))), None)),
                        TakesValue::Forbidden => Err(ParseFailure::ForbiddenValue(Flag::Short(last))),
                    },
                },
            }
        },
        None => short_walk(reg, r, 0),
    }
}

/// The sentinel `--`.
pub open spec fn is_sentinel(t: Seq<u8>) -> bool {
    t == seq![DASH, DASH]
}

/// A token that begins with two dashes and is not the sentinel.
pub open spec fn is_long_token(t: Seq<u8>) -> bool {
    t.len() >= 2 && t[0] == DASH && t[1] == DASH && !is_sentinel(t)
}

/// A token that begins with one dash, is not a lone dash and is no long one.
pub open spec fn is_short_token(t: Seq<u8>) -> bool {
    t.len() >= 2 && t[0] == DASH && t[1] != DASH
}

/// `m` with the free tokens `fs` and the occurrences `es` put before its
/// own; an error stays as it is.
pub open spec fn prepend(fs: Seq<Seq<u8>>, es: Seq<Entry>, m: Result<MatchesView, ParseFailure>) -> Result<MatchesView, ParseFailure> {
    match m {
        Ok(v) => Ok(MatchesView { frees: fs + v.frees, flags: es + v.flags }),
        Err(e) => Err(e),
    }
}

/// The outcome of parsing the tokens of `toks` from position `i` on against
/// the registry `reg`, with flag parsing still on.
pub open spec fn parse_from(reg: Seq<&Arg>, toks: Seq<Seq<u8>>, i: int) -> Result<MatchesView, ParseFailure>
    decreases toks.len() - i,
{
    if i < 0 || i >= toks.len() {
        Ok(MatchesView { frees: seq![], flags: seq![] })
    } else {
        let t = toks[i];
        if is_sentinel(t) {
            Ok(MatchesView { frees: toks.subrange(i + 1, toks.len() as int), flags: seq![] })
        } else if is_long_token(t) || is_short_token(t) {
            let step = if is_long_token(t) {
                long_token(reg, t.skip(2))
            } else {
                short_token(reg, t.skip(1))
            };
            match step {
                Err(e) => Err(e),
                Ok((es, None)) => prepend(seq![], es, parse_from(reg, toks, i + 1)),
                Ok((es, Some(f))) => if i + 1 < toks.len() {
                    prepend(seq![], es.push((f, Some(toks[i + 1]))), parse_from(reg, toks, i + 2))
                } else {
                    Err(ParseFailure::NeedsValue(f))
                },
            }
        } else {
            prepend(seq![t], seq![], parse_from(reg, toks, i + 1))
        }
    }
}

/// The outcome of parsing all of `toks` against the registry `reg`.
pub open spec fn parse_spec(reg: Seq<&Arg>, toks: Seq<Seq<u8>>) -> Result<MatchesView, ParseFailure> {
    parse_from(reg, toks, 0)
}

/// Whether `r` is what parsing `toks` against `reg` gives: the matches, or
/// the first problem met.
pub open spec fn parse_result_is(reg: Seq<&Arg>, toks: Seq<Seq<u8>>, r: Result<Matches, ParseError>) -> bool {
    match r {
        Ok(m) => parse_spec(reg, toks) == Ok::<MatchesView, ParseFailure>(m@),
        Err(e) => parse_spec(reg, toks) == Err::<MatchesView, ParseFailure>(e@),
    }
}

/// Splits `input` on its first `=` that has at least one byte on either
/// side, into the bytes before it and the bytes after it.
pub fn split_on_equals(input: &[u8]) -> (r: Option<(Vec<u8>, Vec<u8>)>)
    ensures
        match split_spec(input@) {
            Some((b, a)) => r is Some && r->Some_0.0@ == b && r->Some_0.1@ == a,
            None => r is None,
        },
        r is Some ==> r->Some_0.0@.len() >= 1,
{
    let n = input.len();
    let mut p: usize = 1;
    while n > 0 && p < n - 1
        invariant
            n == input@.len(),
            1 <= p,
            forall|q: int| 1 <= q < p && q < n ==> input@[q] != EQUALS,
        decreases n - p,
    {
        if input[p] == EQUALS {
            assert(splits_at(input@, p as int));
            assert forall|q: int| splits_at(input@, q) implies q == p by {
                if q > p {
                    assert(input@[p as int] == EQUALS);
                }
            }
            let before = owned_bytes(&input[0..p]);
            let after = owned_bytes(&input[p + 1..n]);
            return Some((before, after));
        }
        p = p + 1;
    }
    None
}

/// `o` with the occurrences `es` recorded before its own.
pub open spec fn after_walk(es: Seq<Entry>, o: TokenOutcome) -> TokenOutcome {
    match o {
        Ok((fs, w)) => Ok((es + fs, w)),
        Err(e) => Err(e),
    }
}

/// `o` with the occurrences `es` recorded before its own.
pub open spec fn after_head(es: Seq<Entry>, o: Result<Seq<Entry>, ParseFailure>) -> Result<Seq<Entry>, ParseFailure> {
    match o {
        Ok(fs) => Ok(es + fs),
        Err(e) => Err(e),
    }
}

proof fn lemma_after_walk_push(es: Seq<Entry>, e: Entry, o: TokenOutcome)
    ensures
        after_walk(es, after_walk(seq![e], o)) == after_walk(es.push(e), o),
{
    match o {
        Ok((fs, w)) => {
            assert(es + (seq![e] + fs) =~= es.push(e) + fs);
        },
        Err(_) => {},
    }
}

proof fn lemma_after_head_push(es: Seq<Entry>, e: Entry, o: Result<Seq<Entry>, ParseFailure>)
    ensures
        after_head(es, after_head(seq![e], o)) == after_head(es.push(e), o),
{
    match o {
        Ok(fs) => {
            assert(es + (seq![e] + fs) =~= es.push(e) + fs);
        },
        Err(_) => {},
    }
}

proof fn lemma_entries_push(v: Seq<(Flag, Option<Vec<u8>>)>, e: (Flag, Option<Vec<u8>>))
    ensures
        entries_view(v.push(e)) == entries_view(v).push(entry_view(e)),
{
    assert(entries_view(v.push(e)) =~= entries_view(v).push(entry_view(e)));
}

/// Putting two lots of tokens and occurrences before a result, one after
/// the other, is putting both at once.
pub proof fn lemma_prepend_twice(
    fs: Seq<Seq<u8>>,
    es: Seq<Entry>,
    gs: Seq<Seq<u8>>,
    ds: Seq<Entry>,
    m: Result<MatchesView, ParseFailure>,
)
    ensures
        prepend(fs, es, prepend(gs, ds, m)) == prepend(fs + gs, es + ds, m),
{
    match m {
        Ok(v) => {
            assert(fs + (gs + v.frees) =~= (fs + gs) + v.frees);
            assert(es + (ds + v.flags) =~= (es + ds) + v.flags);
        },
        Err(_) => {},
    }
}

/// Occurrences recorded while parsing, with their values as owned bytes.
pub type Recorded = Vec<(Flag, Option<Vec<u8>>)>;

/// Whether `res` is the executable form of the token outcome `o`.
pub open spec fn outcome_is(res: Result<(Recorded, Option<Flag>), ParseError>, o: TokenOutcome) -> bool {
    match res {
        Ok((v, w)) => o == Ok::<(Seq<Entry>, Option<Flag>), ParseFailure>((entries_view(v@), w)),
        Err(e) => o == Err::<(Seq<Entry>, Option<Flag>), ParseFailure>(e@),
    }
}

impl Args {
    /// Handles a long-flag token, given `r`, the token without its dashes.
    fn long_flag(&self, r: &[u8]) -> (res: Result<(Recorded, Option<Flag>), ParseError>)
        ensures
            outcome_is(res, long_token(self.0@, r@)),
    {
        let mut out: Recorded = Vec::new();
        match split_on_equals(r) {
            Some((before, after)) => {
                let arg = match self.lookup_long(before.as_slice()) {
                    Ok(a) => a,
                    Err(e) => return Err(e),
                };
                let flag = Flag::Long(arg.long);
                match arg.takes_value {
                    TakesValue::Necessary => {
                        out.push((flag, Some(after)));
                        assert(entries_view(out@) =~= seq![(flag, Some(after@))]);
                        Ok((out, None))
                    },
                    TakesValue::Forbidden => Err(ParseError::ForbiddenValue { flag }),
                }
            },
            None => {
                let arg = match self.lookup_long(r) {
                    Ok(a) => a,
                    Err(e) => return Err(e),
                };
                let flag = Flag::Long(arg.long);
                match arg.takes_value {
                    TakesValue::Forbidden => {
                        out.push((flag, None));
                        assert(entries_view(out@) =~= seq![(flag, None::<Seq<u8>>)]);
                        Ok((out, None))
                    },
                    TakesValue::Necessary => {
                        assert(entries_view(out@) =~= Seq::<Entry>::empty());
                        Ok((out, Some(flag)))
                    },
                }
            },
        }
    }

    /// Handles a short-flag token, given `r`, the token without its dash.
    fn short_flag(&self, r: &[u8]) -> (res: Result<(Recorded, Option<Flag>), ParseError>)
        ensures
            outcome_is(res, short_token(self.0@, r@)),
    {
        let ghost reg = self.0@;
        let mut out: Recorded = Vec::new();
        match split_on_equals(r) {
            Some((before, after)) => {
                let m = before.len() - 1;
                let ghost hd = before@.drop_last();
                let mut j: usize = 0;
                assert(entries_view(out@) =~= Seq::<Entry>::empty());
                assert(after_head(seq![], short_head(reg, hd, 0)) == short_head(reg, hd, 0)) by {
                    match short_head(reg, hd, 0) {
                        Ok(fs) => assert(Seq::<Entry>::empty() + fs =~= fs),
                        Err(_) => {},
                    }
                }
                while j < m
                    invariant
                        reg == self.0@,
                        before@.len() == m + 1,
                        m == hd.len(),
                        hd == before@.drop_last(),
                        split_spec(r@) == Some((before@, after@)),
                        j <= m,
                        short_head(reg, hd, 0) == after_head(entries_view(out@), short_head(reg, hd, j as int)),
                    decreases m - j,
                {
                    let b = before[j];
                    assert(b == hd[j as int]);
                    let arg = match self.lookup_short(b) {
                        Ok(a) => a,
                        Err(e) => return Err(e),
                    };
                    match arg.takes_value {
                        TakesValue::Forbidden => {
                            let e = (Flag::Short(b), None);
                            proof {
                                lemma_after_head_push(entries_view(out@), entry_view(e), short_head(reg, hd, j + 1));
                                lemma_entries_push(out@, e);
                            }
                            out.push(e);
                            j = j + 1;
                        },
                        TakesValue::Necessary => return Err(ParseError::NeedsValue { flag: Flag::Short(b) }),
                    }
                }
                assert(short_head(reg, hd, j as int) == Ok::<Seq<Entry>, ParseFailure>(seq![]));
                assert(entries_view(out@) + seq![] =~= entries_view(out@));
                let last = before[m];
                let arg = match self.lookup_short(last) {
                    Ok(a) => a,
                    Err(e) => return Err(e),
                };
                match arg.takes_value {
                    TakesValue::Necessary => {
                        let e = (Flag::Short(last), Some(after));
                        proof {
                            lemma_entries_push(out@, e);
                        }
                        out.push(e);
                        Ok((out, None))
                    },
                    TakesValue::Forbidden => Err(ParseError::ForbiddenValue { flag: Flag::Short(last) }),
                }
            },
            None => {
                let n = r.len();
                let mut j: usize = 0;
                assert(entries_view(out@) =~= Seq::<Entry>::empty());
                assert(after_walk(seq![], short_walk(reg, r@, 0)) == short_walk(reg, r@, 0)) by {
                    match short_walk(reg, r@, 0) {
                        Ok((fs, w)) => assert(Seq::<Entry>::empty() + fs =~= fs),
                        Err(_) => {},
                    }
                }
                while j < n
                    invariant
                        reg == self.0@,
                        n == r@.len(),
                        j <= n,
                        split_spec(r@) is None,
                        short_walk(reg, r@, 0) == after_walk(entries_view(out@), short_walk(reg, r@, j as int)),
                    decreases n - j,
                {
                    let b = r[j];
                    let arg = match self.lookup_short(b) {
                        Ok(a) => a,
                        Err(e) => return Err(e),
                    };
                    match arg.takes_value {
                        TakesValue::Forbidden => {
                            let e = (Flag::Short(b), None);
                            proof {
                                lemma_after_walk_push(entries_view(out@), entry_view(e), short_walk(reg, r@, j + 1));
                                lemma_entries_push(out@, e);
                            }
                            out.push(e);
                            j = j + 1;
                        },
                        TakesValue::Necessary => {
                            if j + 1 < n {
                                let rest = owned_bytes(&r[j + 1..n]);
                                assert(rest@ == r@.skip(j + 1));
                                let e = (Flag::Short(b), Some(rest));
                                proof {
                                    lemma_entries_push(out@, e);
                                    assert(entries_view(out@) + seq![entry_view(e)] =~= entries_view(out@).push(entry_view(e)));
                                }
                                out.push(e);
                                return Ok((out, None));
                            } else {
                                assert(entries_view(out@) + seq![] =~= entries_view(out@));
                                return Ok((out, Some(Flag::Short(b))));
                            }
                        },
                    }
                }
                assert(entries_view(out@) + seq![] =~= entries_view(out@));
                Ok((out, None))
            },
        }
    }

    /// Parses the user's tokens into matched flags and free tokens, or
    /// returns the first problem met. Flags are matched until the `--`
    /// sentinel; every token after it is free.
    pub fn parse(&self, inputs: &[Vec<u8>]) -> (r: Result<Matches, ParseError>)
        ensures
            parse_result_is(self.0@, tokens_view(inputs@), r),
    {
        let ghost reg = self.0@;
        let ghost toks = tokens_view(inputs@);
        let n = inputs.len();
        let mut flags: Recorded = Vec::new();
        let mut frees: Vec<Vec<u8>> = Vec::new();
        let mut i: usize = 0;
        proof {
            match parse_from(reg, toks, 0) {
                Ok(v) => {
                    assert(Seq::<Seq<u8>>::empty() + v.frees =~= v.frees);
                    assert(Seq::<Entry>::empty() + v.flags =~= v.flags);
                },
                Err(_) => {},
            }
            assert(tokens_view(frees@) =~= Seq::<Seq<u8>>::empty());
            assert(entries_view(flags@) =~= Seq::<Entry>::empty());
        }
        while i < n
            invariant
                reg == self.0@,
                toks == tokens_view(inputs@),
                n == inputs@.len(),
                i <= n,
                parse_spec(reg, toks) == prepend(tokens_view(frees@), entries_view(flags@), parse_from(reg, toks, i as int)),
            decreases n - i,
        {
            let t = inputs[i].as_slice();
            assert(t@ == toks[i as int]);
            let tn = t.len();
            let dashed = tn >= 2 && t[0] == DASH;
            if dashed && tn == 2 && t[1] == DASH {
                // The sentinel: it is dropped, and every later token is free.
                assert(t@ =~= seq![DASH, DASH]);
                let mut j: usize = i + 1;
                assert(toks.subrange(i + 1, i + 1) =~= Seq::<Seq<u8>>::empty());
                assert(is_sentinel(toks[i as int]));
                assert(parse_from(reg, toks, i as int) == Ok::<MatchesView, ParseFailure>(
                    MatchesView { frees: toks.subrange(i + 1, n as int), flags: seq![] },
                ));
                assert(tokens_view(frees@).subrange(0, tokens_view(frees@).len() as int) =~= tokens_view(frees@));
                while j < n
                    invariant
                        toks == tokens_view(inputs@),
                        n == inputs@.len(),
                        i < j <= n,
                        parse_spec(reg, toks) == prepend(
                            tokens_view(frees@).subrange(0, tokens_view(frees@).len() - (j - i - 1)),
                            entries_view(flags@),
                            Ok(MatchesView { frees: toks.subrange(i + 1, n as int), flags: seq![] }),
                        ),
                        tokens_view(frees@).len() >= j - i - 1,
                        tokens_view(frees@).subrange(tokens_view(frees@).len() - (j - i - 1), tokens_view(frees@).len() as int)
                            == toks.subrange(i + 1, j as int),
                    decreases n - j,
                {
                    let ghost before = tokens_view(frees@);
                    let c = owned_bytes(inputs[j].as_slice());
                    frees.push(c);
                    proof {
                        let now = tokens_view(frees@);
                        assert(now =~= before.push(c@));
                        let k = (j - i - 1) as int;
                        assert(now.subrange(0, now.len() - (k + 1)) =~= before.subrange(0, before.len() - k));
                        assert(now.subrange(now.len() - (k + 1), now.len() as int) =~= toks.subrange(i + 1, j + 1));
                    }
                    j = j + 1;
                }
                proof {
                    let fv = tokens_view(frees@);
                    let k = (j - i - 1) as int;
                    assert(fv.subrange(0, fv.len() - k) + toks.subrange(i + 1, n as int) =~= fv);
                    assert(entries_view(flags@) + seq![] =~= entries_view(flags@));
                }
                return Ok(Matches { flags: MatchedFlags { flags }, frees });
            } else if dashed {
                // One dash starts a short cluster, two a long flag.
                let step = if t[1] == DASH {
                    self.long_flag(&t[2..tn])
                } else {
                    self.short_flag(&t[1..tn])
                };
                assert(t@.skip(2) =~= t@.subrange(2, tn as int));
                assert(t@.skip(1) =~= t@.subrange(1, tn as int));
                match step {
                    Err(e) => return Err(e),
                    Ok((es, waiting)) => {
                        let ghost old_flags = entries_view(flags@);
                        let mut es = es;
                        let ghost esv = entries_view(es@);
                        flags.append(&mut es);
                        assert(entries_view(flags@) =~= old_flags + esv);
                        match waiting {
                            None => {
                                proof {
                                    lemma_prepend_twice(tokens_view(frees@), old_flags, seq![], esv, parse_from(reg, toks, i + 1));
                                    assert(tokens_view(frees@) + seq![] =~= tokens_view(frees@));
                                }
                                i = i + 1;
                            },
                            Some(f) => {
                                if i + 1 < n {
                                    let v = owned_bytes(inputs[i + 1].as_slice());
                                    let e = (f, Some(v));
                                    proof {
                                        lemma_entries_push(flags@, e);
                                        lemma_prepend_twice(tokens_view(frees@), old_flags, seq![], esv.push(entry_view(e)), parse_from(reg, toks, i + 2));
                                        assert(tokens_view(frees@) + seq![] =~= tokens_view(frees@));
                                        assert(old_flags + esv.push(entry_view(e)) =~= (old_flags + esv).push(entry_view(e)));
                                    }
                                    flags.push(e);
                                    i = i + 2;
                                } else {
                                    return Err(ParseError::NeedsValue { flag: f });
                                }
                            },
                        }
                    },
                }
            } else {
                let ghost before = tokens_view(frees@);
                let c = owned_bytes(t);
                frees.push(c);
                proof {
                    assert(tokens_view(frees@) =~= before.push(c@));
                    lemma_prepend_twice(before, entries_view(flags@), seq![c@], seq![], parse_from(reg, toks, i + 1));
                    assert(entries_view(flags@) + seq![] =~= entries_view(flags@));
                    assert(before + seq![c@] =~= before.push(c@));
                }
                i = i + 1;
            }
        }
        proof {
            assert(tokens_view(frees@) + seq![] =~= tokens_view(frees@));
            assert(entries_view(flags@) + seq![] =~= entries_view(flags@));
        }
        Ok(Matches { flags: MatchedFlags { flags }, frees })
    }
}

} // verus!
