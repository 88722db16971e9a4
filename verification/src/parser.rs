//! The executable recursive-descent parser, proved equivalent to the
//! grammar of [`crate::grammar`].

use vstd::prelude::*;
use vstd::string::StrSliceExecFns;
use vstd::string::StringExecFns;

use crate::grammar::has_prefix;
use crate::grammar::lemma_members_fuel;
use crate::grammar::lemma_parse_string_spec_len;
use crate::grammar::lemma_value_fuel;
use crate::grammar::parse_elements_spec;
use crate::grammar::parse_members_spec;
use crate::grammar::parse_number_spec;
use crate::grammar::parse_string_spec;
use crate::grammar::parse_value_spec;
use crate::grammar::lemma_elements_fuel;
use crate::text::digit_char;
use crate::text::is_digit;
use crate::text::is_num_char;
use crate::text::is_ws;
use crate::text::count_dots;
use crate::text::lemma_count_dots_push;
use crate::text::lemma_digits_or_dots_all;
use crate::text::lemma_digits_or_dots_at;
use crate::text::lemma_has_digit_at;
use crate::text::lemma_has_digit_none;
use crate::text::lemma_find_char_hit;
use crate::text::lemma_find_char_miss;
use crate::text::lemma_num_run_len_at;
use crate::text::lemma_trimmed_len;
use crate::text::num_char;
use crate::text::trimmed;
use crate::text::valid_number_run;
use crate::text::ws_char;
use crate::value::elems_model;
use crate::value::lemma_elems_model_push;
use crate::value::lemma_pairs_model_push;
use crate::value::pairs_model;
use crate::value::ErrorKind;
use crate::value::JsonModel;
use crate::value::JsonValue;

verus! {

/// The input with its leading whitespace removed.
fn skip_ws<'a>(s: &'a str) -> (r: &'a str)
    ensures
        r@ == trimmed(s@),
        r@.len() <= s@.len(),
{
    let n = s.unicode_len();
    let mut i: usize = 0;
    proof {
        assert(s@.skip(0) =~= s@);
    }
    loop
        invariant
            n == s@.len(),
            i <= n,
            trimmed(s@) == trimmed(s@.skip(i as int)),
        ensures
            i <= n,
            trimmed(s@) == trimmed(s@.skip(i as int)),
            i == n || !is_ws(s@[i as int]),
        decreases n - i,
    {
        if i >= n {
            break ;
        }
        let c = s.get_char(i);
        if !ws_char(c) {
            break ;
        }
        proof {
            assert(s@.skip(i as int).skip(1) =~= s@.skip(i as int + 1));
        }
        i += 1;
    }
    let r = s.substring_char(i, n);
    proof {
        assert(r@ =~= s@.skip(i as int));
        lemma_trimmed_len(s@);
    }
    r
}

/// Parse a string token: the content between the opening quote and the
/// very next quote — a backslash is not an escape — and the remainder
/// after the closing quote.
pub fn parse_string<'a>(input: &'a str) -> (r: Result<(&'a str, &'a str), ErrorKind>)
    ensures
        match r {
            Ok(p) => parse_string_spec(input@) == Ok::<(Seq<char>, Seq<char>), ErrorKind>(
                (p.0@, p.1@),
            ),
            Err(e) => parse_string_spec(input@) == Err::<(Seq<char>, Seq<char>), ErrorKind>(e),
        },
{
    let n = input.unicode_len();
    if n == 0 || input.get_char(0) != '"' {
        return Err(ErrorKind::UnexpectedToken);
    }
    let mut i: usize = 1;
    loop
        invariant
            n == input@.len(),
            1 <= i <= n,
            input@[0] == '"',
            forall|j: int| 1 <= j < i ==> input@[j] != '"',
        ensures
            1 <= i <= n,
            i < n ==> input@[i as int] == '"',
            forall|j: int| 1 <= j < i ==> input@[j] != '"',
        decreases n - i,
    {
        if i >= n {
            break ;
        }
        if input.get_char(i) == '"' {
            break ;
        }
        i += 1;
    }
    let u = Ghost(input@.skip(1));
    if i < n {
        let content = input.substring_char(1, i);
        let rest = input.substring_char(i + 1, n);
        proof {
            assert forall|j: int| 0 <= j < i - 1 implies u@[j] != '"' by {
                assert(u@[j] == input@[j + 1]);
            }
            assert(u@[i - 1] == input@[i as int]);
            lemma_find_char_hit(u@, '"', i - 1);
            assert(content@ =~= u@.take(i - 1));
            assert(rest@ =~= u@.skip(i as int));
        }
        Ok((content, rest))
    } else {
        proof {
            assert forall|j: int| 0 <= j < u@.len() implies u@[j] != '"' by {
                assert(u@[j] == input@[j + 1]);
            }
            lemma_find_char_miss(u@, '"');
        }
        Err(ErrorKind::UnterminatedString)
    }
}

/// Whether a numeric run is a well-formed decimal number.
fn check_number_run(s: &str) -> (b: bool)
    ensures
        b == valid_number_run(s@),
{
    let n = s.unicode_len();
    let start: usize = if n > 0 && s.get_char(0) == '-' {
        1
    } else {
        0
    };
    let ghost t = if s@.len() > 0 && s@[0] == '-' {
        s@.skip(1)
    } else {
        s@
    };
    proof {
        assert(t =~= s@.subrange(start as int, n as int));
    }
    if start >= n {
        proof {
            assert(t.len() == 0);
        }
        return false;
    }
    let mut dots: usize = 0;
    let mut saw_digit = false;
    let mut i = start;
    loop
        invariant
            n == s@.len(),
            start <= i <= n,
            start < n,
            dots <= i,
            start == (if s@.len() > 0 && s@[0] == '-' {
                1int
            } else {
                0int
            }),
            t == s@.subrange(start as int, n as int),
            dots == count_dots(s@.subrange(start as int, i as int)),
            saw_digit == exists|j: int| start <= j < i && is_digit(s@[j]),
            forall|j: int| start <= j < i ==> is_digit(s@[j]) || s@[j] == '.',
        ensures
            i == n,
            dots == count_dots(s@.subrange(start as int, n as int)),
            saw_digit == exists|j: int| start <= j < n && is_digit(s@[j]),
            forall|j: int| start <= j < n ==> is_digit(s@[j]) || s@[j] == '.',
        decreases n - i,
    {
        if i >= n {
            break ;
        }
        let c = s.get_char(i);
        proof {
            lemma_count_dots_push(s@.subrange(start as int, i as int), s@[i as int]);
            assert(s@.subrange(start as int, i as int + 1) =~= s@.subrange(
                start as int,
                i as int,
            ).push(s@[i as int]));
        }
        if digit_char(c) {
            saw_digit = true;
        } else if c == '.' {
            dots += 1;
        } else {
            proof {
                assert(t =~= (if s@.len() > 0 && s@[0] == '-' {
                    s@.skip(1)
                } else {
                    s@
                }));
                assert(t[i - start] == s@[i as int]);
                lemma_digits_or_dots_at(t, i - start);
            }
            return false;
        }
        i += 1;
    }
    proof {
        assert forall|j: int| 0 <= j < t.len() implies is_digit(t[j]) || t[j] == '.' by {
            assert(t[j] == s@[j + start]);
        }
        lemma_digits_or_dots_all(t);
        if saw_digit {
            let j = choose|j: int| start <= j < n && is_digit(s@[j]);
            assert(is_digit(t[j - start]));
            lemma_has_digit_at(t, j - start);
        } else {
            assert forall|j: int| 0 <= j < t.len() implies !is_digit(t[j]) by {
                assert(t[j] == s@[j + start]);
            }
            lemma_has_digit_none(t);
        }
        assert(t.len() > 0);
        assert(count_dots(t) == dots);
    }
    dots <= 1 && saw_digit
}

/// Parse a number token: the maximal run of digits, `.` and `-`, kept as
/// the text that was consumed.
fn parse_number<'a>(input: &'a str) -> (r: Result<(String, &'a str), ErrorKind>)
    ensures
        match r {
            Ok(p) => parse_number_spec(input@) == Ok::<(Seq<char>, Seq<char>), ErrorKind>(
                (p.0@, p.1@),
            ),
            Err(e) => parse_number_spec(input@) == Err::<(Seq<char>, Seq<char>), ErrorKind>(e),
        },
{
    let n = input.unicode_len();
    let mut end: usize = 0;
    loop
        invariant
            n == input@.len(),
            end <= n,
            forall|j: int| 0 <= j < end ==> is_num_char(input@[j]),
        ensures
            end <= n,
            forall|j: int| 0 <= j < end ==> is_num_char(input@[j]),
            end == n || !is_num_char(input@[end as int]),
        decreases n - end,
    {
        if end >= n {
            break ;
        }
        if !num_char(input.get_char(end)) {
            break ;
        }
        end += 1;
    }
    proof {
        lemma_num_run_len_at(input@, end as int);
    }
    let run = input.substring_char(0, end);
    proof {
        assert(run@ =~= input@.take(end as int));
    }
    if check_number_run(run) {
        let rest = input.substring_char(end, n);
        proof {
            assert(rest@ =~= input@.skip(end as int));
        }
        Ok((String::from_str(run), rest))
    } else {
        Err(ErrorKind::InvalidNumber)
    }
}

/// Whether `t` starts with the four given characters.
fn lit4(t: &str, l0: char, l1: char, l2: char, l3: char) -> (b: bool)
    ensures
        b == has_prefix(t@, seq![l0, l1, l2, l3]),
{
    let ghost p = seq![l0, l1, l2, l3];
    let n = t.unicode_len();
    if n < 4 {
        return false;
    }
    let b = t.get_char(0) == l0 && t.get_char(1) == l1 && t.get_char(2) == l2 && t.get_char(3)
        == l3;
    proof {
        if b {
            assert(t@.subrange(0, 4) =~= p);
        } else {
            if has_prefix(t@, p) {
                assert(t@.subrange(0, 4)[0] == t@[0]);
                assert(t@.subrange(0, 4)[1] == t@[1]);
                assert(t@.subrange(0, 4)[2] == t@[2]);
                assert(t@.subrange(0, 4)[3] == t@[3]);
            }
        }
    }
    b
}

/// Whether `t` starts with the five given characters.
fn lit5(t: &str, l0: char, l1: char, l2: char, l3: char, l4: char) -> (b: bool)
    ensures
        b == has_prefix(t@, seq![l0, l1, l2, l3, l4]),
{
    let ghost p = seq![l0, l1, l2, l3, l4];
    let n = t.unicode_len();
    if n < 5 {
        return false;
    }
    let b = t.get_char(0) == l0 && t.get_char(1) == l1 && t.get_char(2) == l2 && t.get_char(3)
        == l3 && t.get_char(4) == l4;
    proof {
        if b {
            assert(t@.subrange(0, 5) =~= p);
        } else {
            if has_prefix(t@, p) {
                assert(t@.subrange(0, 5)[0] == t@[0]);
                assert(t@.subrange(0, 5)[1] == t@[1]);
                assert(t@.subrange(0, 5)[2] == t@[2]);
                assert(t@.subrange(0, 5)[3] == t@[3]);
                assert(t@.subrange(0, 5)[4] == t@[4]);
            }
        }
    }
    b
}

/// Parse one JSON value from the front of `input`, returning the value and
/// the unconsumed remainder.
fn parse_value<'a>(input: &'a str) -> (r: Result<(JsonValue, &'a str), ErrorKind>)
    ensures
        match r {
            Ok(p) => parse_value_spec(input@) == Ok::<(JsonModel, Seq<char>), ErrorKind>(
                (p.0.model(), p.1@),
            ),
            Err(e) => parse_value_spec(input@) == Err::<(JsonModel, Seq<char>), ErrorKind>(e),
        },
    decreases input@.len(), 1int,
{
    let ghost fc = input@.len() + 1 as nat;
    let t = skip_ws(input);
    let n = t.unicode_len();
    if n > 0 && t.get_char(0) == '"' {
        match parse_string(t) {
            Ok((cs, rest)) => Ok((JsonValue::Str(String::from_str(cs)), rest)),
            Err(e) => Err(e),
        }
    } else if n > 0 && t.get_char(0) == '{' {
        let r = parse_object(t);
        proof {
            lemma_members_fuel(
                t@.skip(1),
                Seq::empty(),
                (fc - 1) as nat,
                t@.skip(1).len() + 1 as nat,
            );
        }
        r
    } else if n > 0 && t.get_char(0) == '[' {
        let r = parse_array(t);
        proof {
            lemma_elements_fuel(
                t@.skip(1),
                Seq::empty(),
                (fc - 1) as nat,
                t@.skip(1).len() + 1 as nat,
            );
        }
        r
    } else if lit4(t, 't', 'r', 'u', 'e') {
        let rest = t.substring_char(4, n);
        proof {
            assert(rest@ =~= t@.skip(4));
        }
        Ok((JsonValue::Boolean(true), rest))
    } else if lit5(t, 'f', 'a', 'l', 's', 'e') {
        let rest = t.substring_char(5, n);
        proof {
            assert(rest@ =~= t@.skip(5));
        }
        Ok((JsonValue::Boolean(false), rest))
    } else if lit4(t, 'n', 'u', 'l', 'l') {
        let rest = t.substring_char(4, n);
        proof {
            assert(rest@ =~= t@.skip(4));
        }
        Ok((JsonValue::Null, rest))
    } else {
        match parse_number(t) {
            Ok((run, rest)) => Ok((JsonValue::Number(run), rest)),
            Err(e) => Err(e),
        }
    }
}

/// Parse an object, `input` starting at its `{`.
fn parse_object<'a>(input: &'a str) -> (r: Result<(JsonValue, &'a str), ErrorKind>)
    requires
        input@.len() > 0,
        input@[0] == '{',
    ensures
        match r {
            Ok(p) => parse_members_spec(input@.skip(1), Seq::empty()) == Ok::<
                (JsonModel, Seq<char>),
                ErrorKind,
            >((p.0.model(), p.1@)),
            Err(e) => parse_members_spec(input@.skip(1), Seq::empty()) == Err::<
                (JsonModel, Seq<char>),
                ErrorKind,
            >(e),
        },
    decreases input@.len(), 0int,
{
    let n = input.unicode_len();
    let cursor = input.substring_char(1, n);
    proof {
        assert(cursor@ =~= input@.skip(1));
        assert(pairs_model(Seq::<(String, JsonValue)>::empty()) =~= Seq::<
            (Seq<char>, JsonModel),
        >::empty());
    }
    parse_members(cursor, Vec::new())
}

/// Parse the members of an object, `cursor` standing just after the `{` or
/// after a `,`, with the members already parsed in `members`.
fn parse_members<'a>(cursor: &'a str, members: Vec<(String, JsonValue)>) -> (r: Result<
    (JsonValue, &'a str),
    ErrorKind,
>)
    ensures
        match r {
            Ok(p) => parse_members_spec(cursor@, pairs_model(members@)) == Ok::<
                (JsonModel, Seq<char>),
                ErrorKind,
            >((p.0.model(), p.1@)),
            Err(e) => parse_members_spec(cursor@, pairs_model(members@)) == Err::<
                (JsonModel, Seq<char>),
                ErrorKind,
            >(e),
        },
    decreases cursor@.len(), 0int,
{
    let ghost fc = cursor@.len() + 1 as nat;
    let ghost acc = pairs_model(members@);
    let t = skip_ws(cursor);
    let n = t.unicode_len();
    if n > 0 && t.get_char(0) == '}' {
        let rest = t.substring_char(1, n);
        proof {
            assert(rest@ =~= t@.skip(1));
        }
        Ok((JsonValue::Object(members), rest))
    } else {
        match parse_string(t) {
            Err(e) => Err(e),
            Ok((key, r1)) => {
                proof {
                    lemma_parse_string_spec_len(t@);
                }
                let r2 = skip_ws(r1);
                let n2 = r2.unicode_len();
                if !(n2 > 0 && r2.get_char(0) == ':') {
                    Err(ErrorKind::MissingSeparator)
                } else {
                    let inner = r2.substring_char(1, n2);
                    proof {
                        assert(inner@ =~= r2@.skip(1));
                        lemma_value_fuel(inner@, (fc - 1) as nat, inner@.len() + 1 as nat);
                    }
                    match parse_value(inner) {
                        Err(e) => Err(e),
                        Ok((v, r3)) => {
                            let r4 = skip_ws(r3);
                            let n4 = r4.unicode_len();
                            let key_s = String::from_str(key);
                            let ghost mpre = members@;
                            let ghost gpair = (key_s, v);
                            if n4 > 0 && r4.get_char(0) == ',' {
                                let next = r4.substring_char(1, n4);
                                let mut members2 = members;
                                members2.push((key_s, v));
                                proof {
                                    assert(next@ =~= r4@.skip(1));
                                    lemma_pairs_model_push(mpre, gpair);
                                    lemma_members_fuel(
                                        next@,
                                        acc.push((gpair.0@, gpair.1.model())),
                                        (fc - 1) as nat,
                                        next@.len() + 1 as nat,
                                    );
                                }
                                parse_members(next, members2)
                            } else if n4 > 0 && r4.get_char(0) == '}' {
                                let rest = r4.substring_char(1, n4);
                                let mut members2 = members;
                                members2.push((key_s, v));
                                proof {
                                    assert(rest@ =~= r4@.skip(1));
                                    lemma_pairs_model_push(mpre, gpair);
                                }
                                Ok((JsonValue::Object(members2), rest))
                            } else {
                                Err(ErrorKind::MissingSeparator)
                            }
                        },
                    }
                }
            },
        }
    }
}

/// Parse an array, `input` starting at its `[`.
fn parse_array<'a>(input: &'a str) -> (r: Result<(JsonValue, &'a str), ErrorKind>)
    requires
        input@.len() > 0,
        input@[0] == '[',
    ensures
        match r {
            Ok(p) => parse_elements_spec(input@.skip(1), Seq::empty()) == Ok::<
                (JsonModel, Seq<char>),
                ErrorKind,
            >((p.0.model(), p.1@)),
            Err(e) => parse_elements_spec(input@.skip(1), Seq::empty()) == Err::<
                (JsonModel, Seq<char>),
                ErrorKind,
            >(e),
        },
    decreases input@.len(), 0int,
{
    let n = input.unicode_len();
    let cursor = input.substring_char(1, n);
    proof {
        assert(cursor@ =~= input@.skip(1));
        assert(elems_model(Seq::<JsonValue>::empty()) =~= Seq::<JsonModel>::empty());
    }
    parse_elements(cursor, Vec::new())
}

/// Parse the elements of an array, `cursor` standing just after the `[` or
/// after a `,`, with the elements already parsed in `elements`.
fn parse_elements<'a>(cursor: &'a str, elements: Vec<JsonValue>) -> (r: Result<
    (JsonValue, &'a str),
    ErrorKind,
>)
    ensures
        match r {
            Ok(p) => parse_elements_spec(cursor@, elems_model(elements@)) == Ok::<
                (JsonModel, Seq<char>),
                ErrorKind,
            >((p.0.model(), p.1@)),
            Err(e) => parse_elements_spec(cursor@, elems_model(elements@)) == Err::<
                (JsonModel, Seq<char>),
                ErrorKind,
            >(e),
        },
    decreases cursor@.len(), 2int,
{
    let ghost fc = cursor@.len() + 1 as nat;
    let ghost acc = elems_model(elements@);
    let t = skip_ws(cursor);
    let n = t.unicode_len();
    if n > 0 && t.get_char(0) == ']' {
        let rest = t.substring_char(1, n);
        proof {
            assert(rest@ =~= t@.skip(1));
        }
        Ok((JsonValue::Array(elements), rest))
    } else {
        proof {
            lemma_value_fuel(t@, fc, t@.len() + 1 as nat);
        }
        match parse_value(t) {
            Err(e) => Err(e),
            Ok((v, r1)) => {
                let r2 = skip_ws(r1);
                let n2 = r2.unicode_len();
                let ghost epre = elements@;
                let ghost gv = v;
                if n2 > 0 && r2.get_char(0) == ',' {
                    let next = r2.substring_char(1, n2);
                    let mut elements2 = elements;
                    elements2.push(v);
                    proof {
                        assert(next@ =~= r2@.skip(1));
                        lemma_elems_model_push(epre, gv);
                        lemma_elements_fuel(
                            next@,
                            acc.push(gv.model()),
                            (fc - 1) as nat,
                            next@.len() + 1 as nat,
                        );
                    }
                    parse_elements(next, elements2)
                } else if n2 > 0 && r2.get_char(0) == ']' {
                    let rest = r2.substring_char(1, n2);
                    let mut elements2 = elements;
                    elements2.push(v);
                    proof {
                        assert(rest@ =~= r2@.skip(1));
                        lemma_elems_model_push(epre, gv);
                    }
                    Ok((JsonValue::Array(elements2), rest))
                } else {
                    Err(ErrorKind::MissingSeparator)
                }
            },
        }
    }
}

/// Parse a complete JSON document: the sole construction path for a
/// [`JsonValue`] tree. Trailing characters after a fully parsed top-level
/// value are silently ignored.
pub fn parse_json(input: &str) -> (r: Result<JsonValue, ErrorKind>)
    ensures
        match r {
            Ok(v) => parse_value_spec(input@) matches Ok(p) && p.0 == v.model(),
            Err(e) => parse_value_spec(input@) == Err::<(JsonModel, Seq<char>), ErrorKind>(e),
        },
{
    match parse_value(input) {
        Ok((v, _)) => Ok(v),
        Err(e) => Err(e),
    }
}

} // verus!
