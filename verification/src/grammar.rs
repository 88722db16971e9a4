//! The grammar, written down as specification functions over `Seq<char>`.
//!
//! Each function consumes from the front of its input and returns the
//! parsed model together with the unconsumed remainder, or the error that
//! aborts the parse. Because the value rule, the object-member rule and the
//! array-element rule call each other, the recursion is measured by a fuel
//! parameter; [`lemma_value_fuel`] shows that any fuel larger than the
//! input's length gives the same answer, so [`parse_value_spec`] — the
//! fuel-free form the contracts speak of — is well defined.

use vstd::prelude::*;

use crate::text::find_char;
use crate::text::lemma_find_char_range;
use crate::text::lemma_num_run_len_range;
use crate::text::lemma_trimmed_len;
use crate::text::num_run_len;
use crate::text::trimmed;
use crate::text::valid_number_run;
use crate::value::ErrorKind;
use crate::value::JsonModel;

verus! {

pub open spec fn lit_true() -> Seq<char> {
    seq!['t', 'r', 'u', 'e']
}

pub open spec fn lit_false() -> Seq<char> {
    seq!['f', 'a', 'l', 's', 'e']
}

pub open spec fn lit_null() -> Seq<char> {
    seq!['n', 'u', 'l', 'l']
}

/// `p` is the first `p.len()` characters of `s`.
pub open spec fn has_prefix(s: Seq<char>, p: Seq<char>) -> bool {
    p.len() <= s.len() && s.subrange(0, p.len() as int) == p
}

/// A string token: a leading quote, the content up to the next quote —
/// with no escape interpretation whatsoever — and the remainder after the
/// closing quote.
pub open spec fn parse_string_spec(s: Seq<char>) -> Result<(Seq<char>, Seq<char>), ErrorKind> {
    if s.len() == 0 || s[0] != '"' {
        Err(ErrorKind::UnexpectedToken)
    } else {
        let u = s.skip(1);
        match find_char(u, '"') {
            None => Err(ErrorKind::UnterminatedString),
            Some(k) => Ok((u.take(k as int), u.skip(k as int + 1))),
        }
    }
}

/// A number token: the maximal run of digits, `.` and `-`, kept as text,
/// accepted only when the run is a well-formed decimal number.
pub open spec fn parse_number_spec(s: Seq<char>) -> Result<(Seq<char>, Seq<char>), ErrorKind> {
    let l = num_run_len(s);
    let run = s.take(l as int);
    if valid_number_run(run) {
        Ok((run, s.skip(l as int)))
    } else {
        Err(ErrorKind::InvalidNumber)
    }
}

/// One JSON value, dispatched on the first non-whitespace character:
/// `"` begins a string, `{` an object, `[` an array, the literal prefixes
/// `true`, `false` and `null` (as exact prefixes, not word-boundary-aware)
/// their literals, and anything else is routed to number parsing.
pub open spec fn parse_value_fuel(s: Seq<char>, fuel: nat) -> Result<
    (JsonModel, Seq<char>),
    ErrorKind,
>
    decreases fuel, 0int,
{
    if fuel == 0 {
        Err(ErrorKind::UnexpectedToken)
    } else {
        let t = trimmed(s);
        if t.len() > 0 && t[0] == '"' {
            match parse_string_spec(t) {
                Ok((cs, r)) => Ok((JsonModel::Str(cs), r)),
                Err(e) => Err(e),
            }
        } else if t.len() > 0 && t[0] == '{' {
            parse_members_fuel(t.skip(1), Seq::empty(), (fuel - 1) as nat)
        } else if t.len() > 0 && t[0] == '[' {
            parse_elements_fuel(t.skip(1), Seq::empty(), (fuel - 1) as nat)
        } else if has_prefix(t, lit_true()) {
            Ok((JsonModel::Boolean(true), t.skip(4)))
        } else if has_prefix(t, lit_false()) {
            Ok((JsonModel::Boolean(false), t.skip(5)))
        } else if has_prefix(t, lit_null()) {
            Ok((JsonModel::Null, t.skip(4)))
        } else {
            match parse_number_spec(t) {
                Ok((run, r)) => Ok((JsonModel::Number(run), r)),
                Err(e) => Err(e),
            }
        }
    }
}

/// The members of an object, after its `{` and after any members already
/// accumulated in `acc`: either `}` closes the object, or a string key, a
/// `:`, a value, and then `,` to continue or `}` to close.
pub open spec fn parse_members_fuel(
    s: Seq<char>,
    acc: Seq<(Seq<char>, JsonModel)>,
    fuel: nat,
) -> Result<(JsonModel, Seq<char>), ErrorKind>
    decreases fuel, 1int,
{
    if fuel == 0 {
        Err(ErrorKind::UnexpectedToken)
    } else {
        let t = trimmed(s);
        if t.len() > 0 && t[0] == '}' {
            Ok((JsonModel::Object(acc), t.skip(1)))
        } else {
            match parse_string_spec(t) {
                Err(e) => Err(e),
                Ok((key, r1)) => {
                    let r2 = trimmed(r1);
                    if !(r2.len() > 0 && r2[0] == ':') {
                        Err(ErrorKind::MissingSeparator)
                    } else {
                        match parse_value_fuel(r2.skip(1), (fuel - 1) as nat) {
                            Err(e) => Err(e),
                            Ok((v, r3)) => {
                                let r4 = trimmed(r3);
                                if r4.len() > 0 && r4[0] == ',' {
                                    parse_members_fuel(
                                        r4.skip(1),
                                        acc.push((key, v)),
                                        (fuel - 1) as nat,
                                    )
                                } else if r4.len() > 0 && r4[0] == '}' {
                                    Ok((JsonModel::Object(acc.push((key, v))), r4.skip(1)))
                                } else {
                                    Err(ErrorKind::MissingSeparator)
                                }
                            },
                        }
                    }
                }
            }
        }
    }
}

/// The elements of an array, after its `[`: symmetric to the object rule,
/// without keys.
pub open spec fn parse_elements_fuel(
    s: Seq<char>,
    acc: Seq<JsonModel>,
    fuel: nat,
) -> Result<(JsonModel, Seq<char>), ErrorKind>
    decreases fuel, 1int,
{
    if fuel == 0 {
        Err(ErrorKind::UnexpectedToken)
    } else {
        let t = trimmed(s);
        if t.len() > 0 && t[0] == ']' {
            Ok((JsonModel::Array(acc), t.skip(1)))
        } else {
            match parse_value_fuel(t, fuel) {
                Err(e) => Err(e),
                Ok((v, r1)) => {
                    let r2 = trimmed(r1);
                    if r2.len() > 0 && r2[0] == ',' {
                        parse_elements_fuel(r2.skip(1), acc.push(v), (fuel - 1) as nat)
                    } else if r2.len() > 0 && r2[0] == ']' {
                        Ok((JsonModel::Array(acc.push(v)), r2.skip(1)))
                    } else {
                        Err(ErrorKind::MissingSeparator)
                    }
                },
            }
        }
    }
}

/// The fuel-free form of the value rule: any fuel beyond the input's
/// length gives this answer.
pub open spec fn parse_value_spec(s: Seq<char>) -> Result<(JsonModel, Seq<char>), ErrorKind> {
    parse_value_fuel(s, s.len() + 1)
}

/// The fuel-free form of the object-member rule.
pub open spec fn parse_members_spec(s: Seq<char>, acc: Seq<(Seq<char>, JsonModel)>) -> Result<
    (JsonModel, Seq<char>),
    ErrorKind,
> {
    parse_members_fuel(s, acc, s.len() + 1)
}

/// The fuel-free form of the array-element rule.
pub open spec fn parse_elements_spec(s: Seq<char>, acc: Seq<JsonModel>) -> Result<
    (JsonModel, Seq<char>),
    ErrorKind,
> {
    parse_elements_fuel(s, acc, s.len() + 1)
}

/// A successful string token consumed its two quotes: content and
/// remainder together are two characters shorter than the input.
pub proof fn lemma_parse_string_spec_len(s: Seq<char>)
    ensures
        parse_string_spec(s) matches Ok(p) ==> p.0.len() + p.1.len() + 2 == s.len(),
{
    if s.len() > 0 && s[0] == '"' {
        lemma_find_char_range(s.skip(1), '"');
    }
}

/// A successful number token consumed at least one character.
pub proof fn lemma_parse_number_spec_len(s: Seq<char>)
    ensures
        parse_number_spec(s) matches Ok(p) ==> p.0.len() >= 1 && p.0.len() + p.1.len() == s.len(),
{
    lemma_num_run_len_range(s);
    let l = num_run_len(s);
    let run = s.take(l as int);
    if valid_number_run(run) {
        if run.len() > 0 && run[0] == '-' {
            assert(run.skip(1).len() > 0);
        }
    }
}

/// The value rule gives the same answer under any two fuels larger than
/// the input, and on success consumes at least one character.
pub proof fn lemma_value_fuel(s: Seq<char>, f1: nat, f2: nat)
    requires
        f1 > s.len(),
        f2 > s.len(),
    ensures
        parse_value_fuel(s, f1) == parse_value_fuel(s, f2),
        parse_value_fuel(s, f1) matches Ok(p) ==> p.1.len() < s.len(),
    decreases f1, 0int,
{
    let t = trimmed(s);
    lemma_trimmed_len(s);
    if t.len() > 0 && t[0] == '"' {
        lemma_parse_string_spec_len(t);
    } else if t.len() > 0 && t[0] == '{' {
        lemma_members_fuel(t.skip(1), Seq::empty(), (f1 - 1) as nat, (f2 - 1) as nat);
    } else if t.len() > 0 && t[0] == '[' {
        lemma_elements_fuel(t.skip(1), Seq::empty(), (f1 - 1) as nat, (f2 - 1) as nat);
    } else if has_prefix(t, lit_true()) {
    } else if has_prefix(t, lit_false()) {
    } else if has_prefix(t, lit_null()) {
    } else {
        lemma_parse_number_spec_len(t);
    }
}

/// As [`lemma_value_fuel`], for the object-member rule.
pub proof fn lemma_members_fuel(s: Seq<char>, acc: Seq<(Seq<char>, JsonModel)>, f1: nat, f2: nat)
    requires
        f1 > s.len(),
        f2 > s.len(),
    ensures
        parse_members_fuel(s, acc, f1) == parse_members_fuel(s, acc, f2),
        parse_members_fuel(s, acc, f1) matches Ok(p) ==> p.1.len() < s.len(),
    decreases f1, 1int,
{
    let t = trimmed(s);
    lemma_trimmed_len(s);
    if t.len() > 0 && t[0] == '}' {
    } else {
        match parse_string_spec(t) {
            Err(_) => {},
            Ok((key, r1)) => {
                lemma_parse_string_spec_len(t);
                let r2 = trimmed(r1);
                lemma_trimmed_len(r1);
                if r2.len() > 0 && r2[0] == ':' {
                    let inner = r2.skip(1);
                    lemma_value_fuel(inner, (f1 - 1) as nat, (f2 - 1) as nat);
                    match parse_value_fuel(inner, (f1 - 1) as nat) {
                        Err(_) => {},
                        Ok((v, r3)) => {
                            let r4 = trimmed(r3);
                            lemma_trimmed_len(r3);
                            if r4.len() > 0 && r4[0] == ',' {
                                lemma_members_fuel(
                                    r4.skip(1),
                                    acc.push((key, v)),
                                    (f1 - 1) as nat,
                                    (f2 - 1) as nat,
                                );
                            }
                        },
                    }
                }
            },
        }
    }
}

/// As [`lemma_value_fuel`], for the array-element rule.
pub proof fn lemma_elements_fuel(s: Seq<char>, acc: Seq<JsonModel>, f1: nat, f2: nat)
    requires
        f1 > s.len(),
        f2 > s.len(),
    ensures
        parse_elements_fuel(s, acc, f1) == parse_elements_fuel(s, acc, f2),
        parse_elements_fuel(s, acc, f1) matches Ok(p) ==> p.1.len() < s.len(),
    decreases f1, 1int,
{
    let t = trimmed(s);
    lemma_trimmed_len(s);
    if t.len() > 0 && t[0] == ']' {
    } else {
        lemma_value_fuel(t, f1, f2);
        match parse_value_fuel(t, f1) {
            Err(_) => {},
            Ok((v, r1)) => {
                let r2 = trimmed(r1);
                lemma_trimmed_len(r1);
                if r2.len() > 0 && r2[0] == ',' {
                    lemma_elements_fuel(r2.skip(1), acc.push(v), (f1 - 1) as nat, (f2 - 1) as nat);
                }
            },
        }
    }
}

} // verus!
