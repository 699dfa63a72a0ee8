use vstd::prelude::*;

use vstd::string::{StringExecFns, StringSliceAdditionalSpecFns};

use crate::bytes::{bytes_equal, owned_bytes};
use crate::error::{ParseError, ParseFailure};

verus! {

/// A short argument is a single byte, normally an ASCII letter.
pub type ShortArg = u8;

/// A long argument is a name. The user's input is matched against it byte
/// by byte; once matched, only the registered name is kept.
pub type LongArg = &'static str;

/// The identity of an option: its short byte or its long name.
#[derive(PartialEq, Debug, Clone, Copy)]
pub enum Flag {
    Short(ShortArg),
    Long(LongArg),
}

/// Whether redundant arguments should be considered a problem. Declared for
/// callers that wish to choose a policy; the parser itself applies none.
#[derive(PartialEq, Debug)]
pub enum Strictness {
    /// Complain when an argument does nothing, because it needs another one
    /// or because two of them conflict.
    ComplainAboutRedundantArguments,
    /// Give arguments later in the list priority over earlier ones.
    UseLastArguments,
}

/// Whether a flag takes a value, for long and short forms alike.
#[derive(Copy, Clone, PartialEq, Debug)]
pub enum TakesValue {
    /// The flag has to be followed by a value.
    Necessary,
    /// The flag is an error if a value is attached to it.
    Forbidden,
}

/// One option that the user's input can match.
#[derive(PartialEq, Debug)]
pub struct Arg {
    /// The short form, if any.
    pub short: Option<ShortArg>,
    /// The long form; every option has one.
    pub long: LongArg,
    /// Whether the option takes a value.
    pub takes_value: TakesValue,
}

/// The registry: every option of a program, in declaration order.
#[derive(PartialEq, Debug)]
pub struct Args(pub &'static [&'static Arg]);

/// Whether `f` names the option `a`: by its short byte, or by its long name
/// compared byte for byte.
pub open spec fn names(f: Flag, a: Arg) -> bool {
    match f {
        Flag::Short(s) => a.short == Some(s),
        Flag::Long(l) => l.spec_bytes() == a.long.spec_bytes(),
    }
}

/// Whether `k` is the first position of `reg` whose short form is `b`.
pub open spec fn first_short_at(reg: Seq<&Arg>, b: u8, k: int) -> bool {
    &&& 0 <= k < reg.len()
    &&& reg[k].short == Some(b)
    &&& forall|j: int| 0 <= j < k ==> reg[j].short != Some(b)
}

/// Whether `k` is the first position of `reg` whose long name is `name`.
pub open spec fn first_long_at(reg: Seq<&Arg>, name: Seq<u8>, k: int) -> bool {
    &&& 0 <= k < reg.len()
    &&& reg[k].long.spec_bytes() == name
    &&& forall|j: int| 0 <= j < k ==> reg[j].long.spec_bytes() != name
}

/// The position of the first option of `reg` with short form `b`, if any.
pub open spec fn short_index(reg: Seq<&Arg>, b: u8) -> Option<int> {
    if exists|k: int| first_short_at(reg, b, k) {
        Some(choose|k: int| first_short_at(reg, b, k))
    } else {
        None
    }
}

/// The position of the first option of `reg` with long name `name`, if any.
pub open spec fn long_index(reg: Seq<&Arg>, name: Seq<u8>) -> Option<int> {
    if exists|k: int| first_long_at(reg, name, k) {
        Some(choose|k: int| first_long_at(reg, name, k))
    } else {
        None
    }
}

/// Relies on std's `String::push`: the character is appended at the end.
#[verifier::external_body]
fn push_char(s: &mut String, c: char)
    ensures
        final(s)@ == old(s)@.push(c),
{
    s.push(c)
}

/// How an option reads in messages: `--name`, then ` (-x)` if it has a
/// short form.
pub open spec fn rendered(a: Arg) -> Seq<char> {
    seq!['-', '-'] + a.long@ + match a.short {
        Some(b) => seq![' ', '(', '-', b as char, ')'],
        None => Seq::<char>::empty(),
    }
}

impl Arg {
    /// The option as it reads in messages, such as `--long (-l)`.
    pub fn render(&self) -> (r: String)
        ensures
            r@ == rendered(*self),
    {
        let mut s = String::new();
        push_char(&mut s, '-');
        push_char(&mut s, '-');
        s.append(self.long);
        if let Some(b) = self.short {
            push_char(&mut s, ' ');
            push_char(&mut s, '(');
            push_char(&mut s, '-');
            push_char(&mut s, b as char);
            push_char(&mut s, ')');
        }
        assert(s@ =~= rendered(*self));
        s
    }
}

impl Flag {
    /// Whether this flag is the identity of the option `arg`.
    pub fn matches(&self, arg: &Arg) -> (r: bool)
        ensures
            r == names(*self, *arg),
    {
        match *self {
            Flag::Short(short) => {
                match arg.short {
                    Some(s) => s == short,
                    None => false,
                }
            },
            Flag::Long(long) => bytes_equal(long.as_bytes(), arg.long.as_bytes()),
        }
    }
}

impl Args {
    /// The first option whose short form is `short`.
    pub fn lookup_short(&self, short: ShortArg) -> (r: Result<&'static Arg, ParseError>)
        ensures
            match short_index(self.0@, short) {
                Some(k) => r == Ok::<&Arg, ParseError>(self.0@[k]),
                None => r == Err::<&Arg, ParseError>(ParseError::UnknownShortArgument { attempt: short }),
            },
    {
        let reg = self.0;
        let mut i: usize = 0;
        while i < reg.len()
            invariant
                reg@ == self.0@,
                0 <= i <= reg@.len(),
                forall|j: int| 0 <= j < i ==> reg@[j].short != Some(short),
            decreases reg@.len() - i,
        {
            let a = reg[i];
            let hit = match a.short {
                Some(s) => s == short,
                None => false,
            };
            if hit {
                assert(first_short_at(reg@, short, i as int));
                assert forall|k: int| first_short_at(reg@, short, k) implies k == i by {
                    if k < i {
                    } else if k > i {
                        assert(reg@[i as int].short == Some(short));
                    }
                }
                return Ok(a);
            }
            i = i + 1;
        }
        Err(ParseError::UnknownShortArgument { attempt: short })
    }

    /// The first option whose long name is exactly the bytes `long`.
    pub fn lookup_long(&self, long: &[u8]) -> (r: Result<&'static Arg, ParseError>)
        ensures
            match long_index(self.0@, long@) {
                Some(k) => r is Ok && r->Ok_0 == self.0@[k],
                None => r is Err && r->Err_0@ == ParseFailure::UnknownLong(long@),
            },
    {
        let reg = self.0;
        let mut i: usize = 0;
        while i < reg.len()
            invariant
                reg@ == self.0@,
                0 <= i <= reg@.len(),
                forall|j: int| 0 <= j < i ==> reg@[j].long.spec_bytes() != long@,
            decreases reg@.len() - i,
        {
            let a = reg[i];
            if bytes_equal(a.long.as_bytes(), long) {
                assert(first_long_at(reg@, long@, i as int));
                assert forall|k: int| first_long_at(reg@, long@, k) implies k == i by {
                    if k > i {
                        assert(reg@[i as int].long.spec_bytes() == long@);
                    }
                }
                return Ok(a);
            }
            i = i + 1;
        }
        Err(ParseError::UnknownArgument { attempt: owned_bytes(long) })
    }
}

} // verus!
