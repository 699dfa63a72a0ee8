use vstd::prelude::*;

use crate::arg::{names, Arg, Flag};

verus! {

/// One recorded occurrence of a flag, as a mathematical value: the flag and
/// the bytes of its value, if one was given.
pub type Entry = (Flag, Option<Seq<u8>>);

/// The model of one recorded occurrence.
pub open spec fn entry_view(e: (Flag, Option<Vec<u8>>)) -> Entry {
    (e.0, match e.1 {
        Some(v) => Some(v@),
        None => None,
    })
}

/// The model of a list of recorded occurrences.
pub open spec fn entries_view(v: Seq<(Flag, Option<Vec<u8>>)>) -> Seq<Entry> {
    v.map_values(|e: (Flag, Option<Vec<u8>>)| entry_view(e))
}

/// The model of a list of tokens.
pub open spec fn tokens_view(v: Seq<Vec<u8>>) -> Seq<Seq<u8>> {
    v.map_values(|t: Vec<u8>| t@)
}

/// The flags that were parsed from the user's input, in the order in which
/// they were given. Long and short forms share one list, because the one
/// nearest the end usually counts.
#[derive(PartialEq, Debug)]
pub struct MatchedFlags {
    pub flags: Vec<(Flag, Option<Vec<u8>>)>,
}

impl View for MatchedFlags {
    type V = Seq<Entry>;

    open spec fn view(&self) -> Seq<Entry> {
        entries_view(self.flags@)
    }
}

/// The outcome of a successful parse, as a mathematical value.
pub struct MatchesView {
    pub frees: Seq<Seq<u8>>,
    pub flags: Seq<Entry>,
}

/// The result of parsing the user's command-line tokens.
#[derive(PartialEq, Debug)]
pub struct Matches {
    /// The flags that were matched.
    pub flags: MatchedFlags,
    /// Every token that was not matched as a flag or a flag's value, and
    /// everything after the `--` sentinel, in order.
    pub frees: Vec<Vec<u8>>,
}

impl View for Matches {
    type V = MatchesView;

    open spec fn view(&self) -> MatchesView {
        MatchesView { frees: tokens_view(self.frees@), flags: self.flags@ }
    }
}

/// Whether some occurrence in `s` names `a` and carries no value.
pub open spec fn has_bare(s: Seq<Entry>, a: Arg) -> bool {
    exists|j: int| 0 <= j < s.len() && s[j].1 is None && #[trigger] names(s[j].0, a)
}

/// The value of the last occurrence in `s` that names `a` and carries one.
pub open spec fn last_value(s: Seq<Entry>, a: Arg) -> Option<Seq<u8>>
    decreases s.len(),
{
    if s.len() == 0 {
        None
    } else if s.last().1 is Some && names(s.last().0, a) {
        s.last().1
    } else {
        last_value(s.drop_last(), a)
    }
}

/// How many occurrences in `s` name `a`, with a value or without.
pub open spec fn count_named(s: Seq<Entry>, a: Arg) -> nat
    decreases s.len(),
{
    if s.len() == 0 {
        0
    } else {
        count_named(s.drop_last(), a) + if names(s.last().0, a) { 1nat } else { 0nat }
    }
}

impl MatchedFlags {
    /// Whether the given option was given without a value.
    pub fn has(&self, arg: &Arg) -> (r: bool)
        ensures
            r == has_bare(self@, *arg),
    {
        let mut i: usize = self.flags.len();
        while i > 0
            invariant
                i <= self.flags@.len(),
                forall|j: int|
                    i <= j < self@.len() ==> !(self@[j].1 is None && #[trigger] names(self@[j].0, *arg)),
            decreases i,
        {
            i = i - 1;
            let e = &self.flags[i];
            if e.1.is_none() && e.0.matches(arg) {
                assert(self@[i as int].1 is None && names(self@[i as int].0, *arg));
                return true;
            }
        }
        false
    }

    /// The value of the last occurrence of the given option that has one.
    /// The value need not be valid text.
    pub fn get(&self, arg: &Arg) -> (r: Option<&[u8]>)
        ensures
            match r {
                Some(v) => last_value(self@, *arg) == Some(v@),
                None => last_value(self@, *arg) is None,
            },
    {
        let mut i: usize = self.flags.len();
        assert(self@.subrange(0, i as int) =~= self@);
        while i > 0
            invariant
                i <= self.flags@.len(),
                last_value(self@, *arg) == last_value(self@.subrange(0, i as int), *arg),
            decreases i,
        {
            let ghost s = self@.subrange(0, i as int);
            assert(s.drop_last() =~= self@.subrange(0, i - 1));
            i = i - 1;
            let e = &self.flags[i];
            if e.0.matches(arg) {
                match &e.1 {
                    Some(v) => {
                        return Some(v.as_slice());
                    },
                    None => {},
                }
            }
        }
        proof {
            assert(self@.subrange(0, 0).len() == 0);
        }
        None
    }

    /// How many times the given option occurs, with a value or without.
    pub fn count(&self, arg: &Arg) -> (r: usize)
        ensures
            r == count_named(self@, *arg),
    {
        let mut n: usize = 0;
        let mut i: usize = 0;
        while i < self.flags.len()
            invariant
                i <= self.flags@.len(),
                n == count_named(self@.subrange(0, i as int), *arg),
                n <= i,
            decreases self.flags@.len() - i,
        {
            let ghost s = self@.subrange(0, i + 1);
            assert(s.drop_last() =~= self@.subrange(0, i as int));
            if self.flags[i].0.matches(arg) {
                n = n + 1;
            }
            i = i + 1;
        }
        assert(self@.subrange(0, i as int) =~= self@);
        n
    }
}

} // verus!
