use vstd::prelude::*;

use crate::arg::{long_index, names, short_index, Arg, Flag, TakesValue};
use crate::error::{ParseError, ParseFailure};
use crate::matched::{has_bare, last_value, Entry, Matches, MatchesView};
use crate::parser::{
    is_long_token, is_sentinel, is_short_token, long_token, parse_from, parse_result_is, parse_spec,
    lemma_prepend_twice, prepend, short_head, short_token, short_walk,
};
use vstd::string::StringSliceAdditionalSpecFns;

verus! {

/// Parsing has no hidden state: two results that both meet the contract of
/// `parse` for one registry and one list of tokens are the same.
pub proof fn lemma_parse_deterministic(
    reg: Seq<&Arg>,
    toks: Seq<Seq<u8>>,
    r1: Result<Matches, ParseError>,
    r2: Result<Matches, ParseError>,
)
    requires
        parse_result_is(reg, toks, r1),
        parse_result_is(reg, toks, r2),
    ensures
        r1 is Ok <==> r2 is Ok,
        r1 is Ok ==> r1->Ok_0@ == r2->Ok_0@,
        r1 is Err ==> r1->Err_0@ == r2->Err_0@,
{
}

/// `has` is false for an option all of whose occurrences carry a value,
/// however many of them there are.
pub proof fn lemma_has_ignores_valued(s: Seq<Entry>, a: Arg)
    requires
        forall|j: int| 0 <= j < s.len() && #[trigger] names(s[j].0, a) ==> s[j].1 is Some,
    ensures
        !has_bare(s, a),
{
}

/// The value that `get` returns comes from the last occurrence of the
/// option that carries one: at position `k`, with none of them after it.
pub proof fn lemma_get_is_last(s: Seq<Entry>, a: Arg, k: int)
    requires
        0 <= k < s.len(),
        s[k].1 is Some,
        names(s[k].0, a),
        forall|j: int| k < j < s.len() ==> !(s[j].1 is Some && #[trigger] names(s[j].0, a)),
    ensures
        last_value(s, a) == s[k].1,
    decreases s.len(),
{
    if k < s.len() - 1 {
        assert(!(s.last().1 is Some && names(s.last().0, a)));
        let t = s.drop_last();
        assert forall|j: int| k < j < t.len() implies !(t[j].1 is Some && #[trigger] names(t[j].0, a)) by {
            assert(t[j] == s[j]);
        }
        lemma_get_is_last(t, a, k);
    }
}

/// `get` finds nothing exactly when no occurrence of the option carries a
/// value.
pub proof fn lemma_get_none(s: Seq<Entry>, a: Arg)
    ensures
        last_value(s, a) is None <==> forall|j: int|
            0 <= j < s.len() ==> !(s[j].1 is Some && #[trigger] names(s[j].0, a)),
    decreases s.len(),
{
    if s.len() > 0 {
        lemma_get_none(s.drop_last(), a);
        if last_value(s, a) is None {
            assert forall|j: int| 0 <= j < s.len() implies !(s[j].1 is Some && #[trigger] names(s[j].0, a)) by {
                if j < s.len() - 1 {
                    assert(s.drop_last()[j] == s[j]);
                }
            }
        } else {
            if !(s.last().1 is Some && names(s.last().0, a)) {
                let j = choose|j: int| 0 <= j < s.len() - 1 && (s.drop_last()[j].1 is Some && #[trigger] names(s.drop_last()[j].0, a));
                assert(s[j] == s.drop_last()[j]);
            }
        }
    }
}

/// The position in `reg` of the option that `f` identifies.
pub open spec fn index_of(reg: Seq<&Arg>, f: Flag) -> Option<int> {
    match f {
        Flag::Short(b) => short_index(reg, b),
        Flag::Long(l) => long_index(reg, l.spec_bytes()),
    }
}

/// Whether the occurrence `e` names an option of `reg`, and carries a value
/// exactly when that option takes one.
pub open spec fn fits_policy(reg: Seq<&Arg>, e: Entry) -> bool {
    match index_of(reg, e.0) {
        Some(k) => (e.1 is Some) == (reg[k].takes_value == TakesValue::Necessary),
        None => false,
    }
}

/// Whether every occurrence of `s` fits the policy of its option.
pub open spec fn all_fit(reg: Seq<&Arg>, s: Seq<Entry>) -> bool {
    forall|k: int| 0 <= k < s.len() ==> fits_policy(reg, #[trigger] s[k])
}

/// Whether a flag left waiting for the next token takes a value.
pub open spec fn waits_for_value(reg: Seq<&Arg>, w: Option<Flag>) -> bool {
    match w {
        Some(f) => match index_of(reg, f) {
            Some(k) => reg[k].takes_value == TakesValue::Necessary,
            None => false,
        },
        None => true,
    }
}

proof fn lemma_all_fit_concat(reg: Seq<&Arg>, a: Seq<Entry>, b: Seq<Entry>)
    requires
        all_fit(reg, a),
        all_fit(reg, b),
    ensures
        all_fit(reg, a + b),
{
    assert forall|k: int| 0 <= k < (a + b).len() implies fits_policy(reg, #[trigger] (a + b)[k]) by {
        if k < a.len() {
            assert((a + b)[k] == a[k]);
        } else {
            assert((a + b)[k] == b[k - a.len()]);
        }
    }
}

proof fn lemma_long_index_of_name(reg: Seq<&Arg>, name: Seq<u8>)
    requires
        long_index(reg, name) is Some,
    ensures
        reg[long_index(reg, name)->Some_0].long.spec_bytes() == name,
        0 <= long_index(reg, name)->Some_0 < reg.len(),
{
}

proof fn lemma_long_token_fits(reg: Seq<&Arg>, r: Seq<u8>)
    ensures
        long_token(reg, r) matches Ok((es, w)) ==> all_fit(reg, es) && waits_for_value(reg, w),
{
    match crate::parser::split_spec(r) {
        Some((name, value)) => {
            if long_index(reg, name) is Some {
                lemma_long_index_of_name(reg, name);
            }
        },
        None => {
            if long_index(reg, r) is Some {
                lemma_long_index_of_name(reg, r);
            }
        },
    }
}

proof fn lemma_short_walk_fits(reg: Seq<&Arg>, r: Seq<u8>, j: int)
    ensures
        short_walk(reg, r, j) matches Ok((es, w)) ==> all_fit(reg, es) && waits_for_value(reg, w),
    decreases r.len() - j,
{
    if 0 <= j < r.len() {
        lemma_short_walk_fits(reg, r, j + 1);
        if let Some(k) = short_index(reg, r[j]) {
            if let Ok((es, w)) = short_walk(reg, r, j + 1) {
                if reg[k].takes_value == TakesValue::Forbidden {
                    let e = (Flag::Short(r[j]), None::<Seq<u8>>);
                    assert(fits_policy(reg, seq![e][0]));
                    lemma_all_fit_concat(reg, seq![e], es);
                }
            }
        }
    }
}

proof fn lemma_short_head_fits(reg: Seq<&Arg>, bs: Seq<u8>, j: int)
    ensures
        short_head(reg, bs, j) matches Ok(es) ==> all_fit(reg, es),
    decreases bs.len() - j,
{
    if 0 <= j < bs.len() {
        lemma_short_head_fits(reg, bs, j + 1);
        if let Some(k) = short_index(reg, bs[j]) {
            if let Ok(es) = short_head(reg, bs, j + 1) {
                if reg[k].takes_value == TakesValue::Forbidden {
                    let e = (Flag::Short(bs[j]), None::<Seq<u8>>);
                    assert(fits_policy(reg, seq![e][0]));
                    lemma_all_fit_concat(reg, seq![e], es);
                }
            }
        }
    }
}

proof fn lemma_short_token_fits(reg: Seq<&Arg>, r: Seq<u8>)
    ensures
        short_token(reg, r) matches Ok((es, w)) ==> all_fit(reg, es) && waits_for_value(reg, w),
{
    match crate::parser::split_spec(r) {
        Some((before, value)) => {
            lemma_short_head_fits(reg, before.drop_last(), 0);
            if let Ok(es) = short_head(reg, before.drop_last(), 0) {
                if let Some(k) = short_index(reg, before.last()) {
                    if reg[k].takes_value == TakesValue::Necessary {
                        let e = (Flag::Short(before.last()), Some(value));
                        assert(fits_policy(reg, seq![e][0]));
                        lemma_all_fit_concat(reg, es, seq![e]);
                        assert(es.push(e) =~= es + seq![e]);
                    }
                }
            }
        },
        None => lemma_short_walk_fits(reg, r, 0),
    }
}

proof fn lemma_parse_from_fits(reg: Seq<&Arg>, toks: Seq<Seq<u8>>, i: int)
    ensures
        parse_from(reg, toks, i) matches Ok(m) ==> all_fit(reg, m.flags),
    decreases toks.len() - i,
{
    if 0 <= i < toks.len() {
        let t = toks[i];
        if !is_sentinel(t) {
            lemma_parse_from_fits(reg, toks, i + 1);
            if i + 1 < toks.len() {
                lemma_parse_from_fits(reg, toks, i + 2);
            }
            if is_long_token(t) || is_short_token(t) {
                let step = if is_long_token(t) {
                    lemma_long_token_fits(reg, t.skip(2));
                    long_token(reg, t.skip(2))
                } else {
                    lemma_short_token_fits(reg, t.skip(1));
                    short_token(reg, t.skip(1))
                };
                match step {
                    Ok((es, None)) => {
                        if let Ok(m) = parse_from(reg, toks, i + 1) {
                            lemma_all_fit_concat(reg, es, m.flags);
                        }
                    },
                    Ok((es, Some(f))) => {
                        if i + 1 < toks.len() {
                            if let Ok(m) = parse_from(reg, toks, i + 2) {
                                let e = (f, Some(toks[i + 1]));
                                assert(fits_policy(reg, seq![e][0]));
                                lemma_all_fit_concat(reg, es, seq![e]);
                                assert(es.push(e) =~= es + seq![e]);
                                lemma_all_fit_concat(reg, es.push(e), m.flags);
                            }
                        }
                    },
                    Err(_) => {},
                }
            } else {
                if let Ok(m) = parse_from(reg, toks, i + 1) {
                    assert(seq![] + m.flags =~= m.flags);
                }
            }
        }
    }
}

/// After a successful parse, every recorded occurrence names an option of
/// the registry, and carries a value exactly when that option takes one.
pub proof fn lemma_values_follow_policy(reg: Seq<&Arg>, toks: Seq<Seq<u8>>)
    requires
        parse_spec(reg, toks) is Ok,
    ensures
        forall|k: int| 0 <= k < parse_spec(reg, toks)->Ok_0.flags.len()
            ==> fits_policy(reg, #[trigger] parse_spec(reg, toks)->Ok_0.flags[k]),
{
    lemma_parse_from_fits(reg, toks, 0);
}

proof fn lemma_parse_from_shift(reg: Seq<&Arg>, a: Seq<Seq<u8>>, i: int, b: Seq<Seq<u8>>, j: int)
    requires
        0 <= i <= a.len(),
        0 <= j <= b.len(),
        a.skip(i) == b.skip(j),
    ensures
        parse_from(reg, a, i) == parse_from(reg, b, j),
    decreases a.len() - i,
{
    assert(a.len() - i == a.skip(i).len());
    if i < a.len() {
        assert(a[i] == a.skip(i)[0]);
        assert(b[j] == b.skip(j)[0]);
        assert(a.skip(i + 1) =~= a.skip(i).skip(1));
        assert(b.skip(j + 1) =~= b.skip(j).skip(1));
        lemma_parse_from_shift(reg, a, i + 1, b, j + 1);
        assert(a.subrange(i + 1, a.len() as int) =~= b.subrange(j + 1, b.len() as int));
        if i + 1 < a.len() {
            assert(a[i + 1] == a.skip(i)[1]);
            assert(b[j + 1] == b.skip(j)[1]);
            assert(a.skip(i + 2) =~= a.skip(i).skip(2));
            assert(b.skip(j + 2) =~= b.skip(j).skip(2));
            lemma_parse_from_shift(reg, a, i + 2, b, j + 2);
        }
    }
}

proof fn lemma_prepend_nothing(m: Result<MatchesView, ParseFailure>)
    ensures
        prepend(seq![], seq![], m) == m,
{
    if let Ok(v) = m {
        assert(Seq::<Seq<u8>>::empty() + v.frees =~= v.frees);
        assert(Seq::<Entry>::empty() + v.flags =~= v.flags);
    }
}

proof fn lemma_parse_from_concat(reg: Seq<&Arg>, pre: Seq<Seq<u8>>, rest: Seq<Seq<u8>>, i: int)
    requires
        0 <= i <= pre.len(),
        parse_from(reg, pre, i) is Ok,
        forall|k: int| i <= k < pre.len() ==> !is_sentinel(#[trigger] pre[k]),
    ensures
        parse_from(reg, pre + rest, i) == prepend(
            parse_from(reg, pre, i)->Ok_0.frees,
            parse_from(reg, pre, i)->Ok_0.flags,
            parse_from(reg, rest, 0),
        ),
    decreases pre.len() - i,
{
    let all = pre + rest;
    if i == pre.len() {
        assert(all.skip(i) =~= rest.skip(0));
        lemma_parse_from_shift(reg, all, i, rest, 0);
        lemma_prepend_nothing(parse_from(reg, rest, 0));
    } else {
        let t = pre[i];
        assert(all[i] == t);
        let r = parse_from(reg, rest, 0);
        if is_long_token(t) || is_short_token(t) {
            let step = if is_long_token(t) {
                long_token(reg, t.skip(2))
            } else {
                short_token(reg, t.skip(1))
            };
            match step {
                Ok((es, None)) => {
                    lemma_parse_from_concat(reg, pre, rest, i + 1);
                    let m = parse_from(reg, pre, i + 1)->Ok_0;
                    lemma_prepend_twice(seq![], es, m.frees, m.flags, r);
                    assert(Seq::<Seq<u8>>::empty() + m.frees =~= m.frees);
                },
                Ok((es, Some(f))) => {
                    assert(i + 1 < pre.len());
                    assert(all[i + 1] == pre[i + 1]);
                    lemma_parse_from_concat(reg, pre, rest, i + 2);
                    let m = parse_from(reg, pre, i + 2)->Ok_0;
                    lemma_prepend_twice(seq![], es.push((f, Some(pre[i + 1]))), m.frees, m.flags, r);
                    assert(Seq::<Seq<u8>>::empty() + m.frees =~= m.frees);
                },
                Err(_) => {},
            }
        } else {
            lemma_parse_from_concat(reg, pre, rest, i + 1);
            let m = parse_from(reg, pre, i + 1)->Ok_0;
            lemma_prepend_twice(seq![t], seq![], m.frees, m.flags, r);
            assert(Seq::<Entry>::empty() + m.flags =~= m.flags);
        }
    }
}

/// Parsing splits at token boundaries: when the leading tokens `pre` parse
/// on their own and hold no `--`, parsing `pre` followed by `rest` gives the
/// free tokens and occurrences of `pre`, followed by those of `rest`, or the
/// first problem in `rest`.
pub proof fn lemma_parse_concat(reg: Seq<&Arg>, pre: Seq<Seq<u8>>, rest: Seq<Seq<u8>>)
    requires
        parse_spec(reg, pre) is Ok,
        forall|k: int| 0 <= k < pre.len() ==> !is_sentinel(#[trigger] pre[k]),
    ensures
        parse_spec(reg, pre + rest) == prepend(
            parse_spec(reg, pre)->Ok_0.frees,
            parse_spec(reg, pre)->Ok_0.flags,
            parse_spec(reg, rest),
        ),
{
    lemma_parse_from_concat(reg, pre, rest, 0);
}

/// `--` ends flag parsing: it never becomes a free token itself, and every
/// token after it is free, in its order, whatever it looks like.
pub proof fn lemma_sentinel_frees_rest(reg: Seq<&Arg>, pre: Seq<Seq<u8>>, post: Seq<Seq<u8>>)
    requires
        parse_spec(reg, pre) is Ok,
        forall|k: int| 0 <= k < pre.len() ==> !is_sentinel(#[trigger] pre[k]),
    ensures
        parse_spec(reg, pre + (seq![seq![crate::parser::DASH, crate::parser::DASH]] + post)) == Ok::<MatchesView, ParseFailure>(
            MatchesView {
                frees: parse_spec(reg, pre)->Ok_0.frees + post,
                flags: parse_spec(reg, pre)->Ok_0.flags,
            },
        ),
{
    let rest = seq![seq![crate::parser::DASH, crate::parser::DASH]] + post;
    lemma_parse_concat(reg, pre, rest);
    assert(is_sentinel(rest[0]));
    assert(rest.subrange(1, rest.len() as int) =~= post);
    let m = parse_spec(reg, pre)->Ok_0;
    assert(m.flags + seq![] =~= m.flags);
}

/// Whether the tokens of `a` occur in `b` in the same order, possibly with
/// others between them.
pub open spec fn embeds(a: Seq<Seq<u8>>, b: Seq<Seq<u8>>) -> bool
    decreases b.len(),
{
    if a.len() == 0 {
        true
    } else if b.len() == 0 {
        false
    } else {
        (a[0] == b[0] && embeds(a.skip(1), b.skip(1))) || embeds(a, b.skip(1))
    }
}

proof fn lemma_embeds_self(a: Seq<Seq<u8>>)
    ensures
        embeds(a, a),
    decreases a.len(),
{
    if a.len() > 0 {
        lemma_embeds_self(a.skip(1));
    }
}

proof fn lemma_parse_from_embeds(reg: Seq<&Arg>, toks: Seq<Seq<u8>>, i: int)
    requires
        0 <= i <= toks.len(),
    ensures
        parse_from(reg, toks, i) matches Ok(m) ==> embeds(m.frees, toks.skip(i)),
    decreases toks.len() - i,
{
    if i < toks.len() {
        let t = toks[i];
        let here = toks.skip(i);
        assert(here.skip(1) =~= toks.skip(i + 1));
        assert(here[0] == t);
        if is_sentinel(t) {
            lemma_embeds_self(toks.subrange(i + 1, toks.len() as int));
            assert(toks.subrange(i + 1, toks.len() as int) =~= toks.skip(i + 1));
        } else if is_long_token(t) || is_short_token(t) {
            lemma_parse_from_embeds(reg, toks, i + 1);
            if i + 1 < toks.len() {
                lemma_parse_from_embeds(reg, toks, i + 2);
                assert(toks.skip(i + 1).skip(1) =~= toks.skip(i + 2));
                if let Ok(m) = parse_from(reg, toks, i + 2) {
                    assert(embeds(m.frees, toks.skip(i + 1)));
                }
            }
            if let Ok(m) = parse_from(reg, toks, i + 1) {
                assert(Seq::<Seq<u8>>::empty() + m.frees =~= m.frees);
            }
            if let Ok(m) = parse_from(reg, toks, i + 2) {
                assert(Seq::<Seq<u8>>::empty() + m.frees =~= m.frees);
            }
        } else {
            lemma_parse_from_embeds(reg, toks, i + 1);
            if let Ok(m) = parse_from(reg, toks, i + 1) {
                let fs = seq![t] + m.frees;
                assert(fs[0] == t);
                assert(fs.skip(1) =~= m.frees);
            }
        }
    }
}

/// The free tokens of a successful parse are tokens of the input, in the
/// order in which they were given.
pub proof fn lemma_frees_in_order(reg: Seq<&Arg>, toks: Seq<Seq<u8>>)
    requires
        parse_spec(reg, toks) is Ok,
    ensures
        embeds(parse_spec(reg, toks)->Ok_0.frees, toks),
{
    lemma_parse_from_embeds(reg, toks, 0);
    assert(toks.skip(0) =~= toks);
}

} // verus!
