//! The two serializers: the compact single-line rendering and the
//! indented pretty rendering, each specified as a function from the model
//! to the exact text it produces.

use vstd::prelude::*;
use vstd::string::StrSliceExecFns;
use vstd::string::StringExecFns;

use crate::grammar::lit_false;
use crate::grammar::lit_null;
use crate::grammar::lit_true;
use crate::value::elems_model;
use crate::value::pairs_model;
use crate::value::JsonModel;
use crate::value::JsonValue;

verus! {

/// The compact text of a value: no whitespace is ever inserted, string
/// and number payloads are emitted exactly as stored.
pub open spec fn compact_of(m: JsonModel) -> Seq<char>
    decreases m,
{
    match m {
        JsonModel::Str(s) => seq!['"'] + s + seq!['"'],
        JsonModel::Number(t) => t,
        JsonModel::Boolean(b) => if b {
            lit_true()
        } else {
            lit_false()
        },
        JsonModel::Null => lit_null(),
        JsonModel::Array(es) => seq!['['] + compact_elems(es) + seq![']'],
        JsonModel::Object(ps) => seq!['{'] + compact_pairs(ps) + seq!['}'],
    }
}

/// Array elements joined by commas.
pub open spec fn compact_elems(es: Seq<JsonModel>) -> Seq<char>
    decreases es,
{
    if es.len() == 0 {
        Seq::empty()
    } else if es.len() == 1 {
        compact_of(es[0])
    } else {
        compact_of(es[0]) + seq![','] + compact_elems(es.subrange(1, es.len() as int))
    }
}

/// Object members, each `"key":value`, joined by commas.
pub open spec fn compact_pairs(ps: Seq<(Seq<char>, JsonModel)>) -> Seq<char>
    decreases ps,
{
    if ps.len() == 0 {
        Seq::empty()
    } else {
        let item = seq!['"'] + ps[0].0 + seq!['"', ':'] + compact_of(ps[0].1);
        if ps.len() == 1 {
            item
        } else {
            item + seq![','] + compact_pairs(ps.subrange(1, ps.len() as int))
        }
    }
}

/// `n` repetitions of the two-space indent unit.
pub open spec fn indent_seq(n: nat) -> Seq<char>
    decreases n,
{
    if n == 0 {
        Seq::empty()
    } else {
        seq![' ', ' '] + indent_seq((n - 1) as nat)
    }
}

pub proof fn lemma_indent_snoc(n: nat)
    ensures
        indent_seq(n + 1) == indent_seq(n) + seq![' ', ' '],
    decreases n,
{
    if n == 0 {
        assert(indent_seq(0) == Seq::<char>::empty());
        assert(indent_seq(1) =~= Seq::<char>::empty() + seq![' ', ' ']);
    } else {
        lemma_indent_snoc((n - 1) as nat);
        assert(seq![' ', ' '] + (indent_seq((n - 1) as nat) + seq![' ', ' ']) =~= (seq![' ', ' ']
            + indent_seq((n - 1) as nat)) + seq![' ', ' ']);
    }
}

/// The pretty text of a value at nesting level `ind`: scalars render as
/// in the compact form; arrays and objects open their bracket, put one
/// element per line at level `ind + 1` with commas on all lines but the
/// last, and close the bracket behind `ind` indent units.
pub open spec fn pretty_of(m: JsonModel, ind: nat) -> Seq<char>
    decreases m,
{
    match m {
        JsonModel::Str(s) => seq!['"'] + s + seq!['"'],
        JsonModel::Number(t) => t,
        JsonModel::Boolean(b) => if b {
            lit_true()
        } else {
            lit_false()
        },
        JsonModel::Null => lit_null(),
        JsonModel::Array(es) => seq!['[', '\n'] + pretty_elems(es, ind + 1) + indent_seq(ind)
            + seq![']'],
        JsonModel::Object(ps) => seq!['{', '\n'] + pretty_pairs(ps, ind + 1) + indent_seq(ind)
            + seq!['}'],
    }
}

/// One line per array element.
pub open spec fn pretty_elems(es: Seq<JsonModel>, ind: nat) -> Seq<char>
    decreases es,
{
    if es.len() == 0 {
        Seq::empty()
    } else {
        indent_seq(ind) + pretty_of(es[0], ind) + (if es.len() > 1 {
            seq![',']
        } else {
            Seq::empty()
        }) + seq!['\n'] + pretty_elems(es.subrange(1, es.len() as int), ind)
    }
}

/// One line per object member, `"key": value`.
pub open spec fn pretty_pairs(ps: Seq<(Seq<char>, JsonModel)>, ind: nat) -> Seq<char>
    decreases ps,
{
    if ps.len() == 0 {
        Seq::empty()
    } else {
        indent_seq(ind) + seq!['"'] + ps[0].0 + seq!['"', ':', ' '] + pretty_of(ps[0].1, ind) + (
        if ps.len() > 1 {
            seq![',']
        } else {
            Seq::empty()
        }) + seq!['\n'] + pretty_pairs(ps.subrange(1, ps.len() as int), ind)
    }
}

/// The nesting depth of a value: how many levels of brackets open inside.
pub open spec fn depth_of(m: JsonModel) -> nat
    decreases m,
{
    match m {
        JsonModel::Array(es) => 1 + depth_elems(es),
        JsonModel::Object(ps) => 1 + depth_pairs(ps),
        _ => 0,
    }
}

pub open spec fn depth_elems(es: Seq<JsonModel>) -> nat
    decreases es,
{
    if es.len() == 0 {
        0
    } else {
        let h = depth_of(es[0]);
        let r = depth_elems(es.subrange(1, es.len() as int));
        if h > r {
            h
        } else {
            r
        }
    }
}

pub open spec fn depth_pairs(ps: Seq<(Seq<char>, JsonModel)>) -> nat
    decreases ps,
{
    if ps.len() == 0 {
        0
    } else {
        let h = depth_of(ps[0].1);
        let r = depth_pairs(ps.subrange(1, ps.len() as int));
        if h > r {
            h
        } else {
            r
        }
    }
}

/// Append `n` indent units to `out`.
fn push_indent(out: &mut String, n: usize)
    ensures
        final(out)@ == old(out)@ + indent_seq(n as nat),
{
    let mut k: usize = 0;
    proof {
        assert(out@ =~= old(out)@ + indent_seq(0));
    }
    loop
        invariant
            k <= n,
            out@ == old(out)@ + indent_seq(k as nat),
        ensures
            out@ == old(out)@ + indent_seq(n as nat),
        decreases n - k,
    {
        if k >= n {
            break ;
        }
        out.append("  ");
        proof {
            reveal_strlit("  ");
            assert(("  ")@ =~= seq![' ', ' ']);
            lemma_indent_snoc(k as nat);
            assert((old(out)@ + indent_seq(k as nat)) + seq![' ', ' '] =~= old(out)@ + (indent_seq(
                k as nat,
            ) + seq![' ', ' ']));
        }
        k += 1;
    }
}

impl JsonValue {
    /// The compact single-line rendering of this value: the text any
    /// plain conversion of the value to text produces.
    pub fn to_text(&self) -> (out: String)
        ensures
            out@ == compact_of(self.model()),
        decreases self, 0int,
    {
        match self {
            JsonValue::Str(s) => {
                let mut out = String::from_str("\"");
                out.append(s.as_str());
                out.append("\"");
                proof {
                    reveal_strlit("\"");
                    assert(("\"")@ =~= seq!['"']);
                }
                out
            },
            JsonValue::Number(t) => String::from_str(t.as_str()),
            JsonValue::Boolean(b) => {
                if *b {
                    let out = String::from_str("true");
                    proof {
                        reveal_strlit("true");
                        assert(("true")@ =~= lit_true());
                    }
                    out
                } else {
                    let out = String::from_str("false");
                    proof {
                        reveal_strlit("false");
                        assert(("false")@ =~= lit_false());
                    }
                    out
                }
            },
            JsonValue::Null => {
                let out = String::from_str("null");
                proof {
                    reveal_strlit("null");
                    assert(("null")@ =~= lit_null());
                }
                out
            },
            JsonValue::Array(els) => {
                let mut out = String::from_str("[");
                let rest = compact_elems_text(els, 0);
                out.append(rest.as_str());
                out.append("]");
                proof {
                    reveal_strlit("[");
                    reveal_strlit("]");
                    assert(("[")@ =~= seq!['[']);
                    assert(("]")@ =~= seq![']']);
                    assert(elems_model(els@).skip(0) =~= elems_model(els@));
                }
                out
            },
            JsonValue::Object(ps) => {
                let mut out = String::from_str("{");
                let rest = compact_pairs_text(ps, 0);
                out.append(rest.as_str());
                out.append("}");
                proof {
                    reveal_strlit("{");
                    reveal_strlit("}");
                    assert(("{")@ =~= seq!['{']);
                    assert(("}")@ =~= seq!['}']);
                    assert(pairs_model(ps@).skip(0) =~= pairs_model(ps@));
                }
                out
            },
        }
    }
}

/// The compact text of the elements from `from` on, commas between.
fn compact_elems_text(els: &Vec<JsonValue>, from: usize) -> (out: String)
    requires
        from <= els@.len(),
    ensures
        out@ == compact_elems(elems_model(els@).skip(from as int)),
    decreases els@, els@.len() - from,
{
    let n = els.len();
    let ghost m = elems_model(els@).skip(from as int);
    if from >= n {
        let out = String::new();
        proof {
            assert(m.len() == 0);
        }
        out
    } else {
        proof {
            assert(m[0] == elems_model(els@)[from as int]);
        }
        let mut out = els[from].to_text();
        if from + 1 == n {
            proof {
                assert(m.len() == 1);
            }
            out
        } else {
            out.append(",");
            let rest = compact_elems_text(els, from + 1);
            out.append(rest.as_str());
            proof {
                reveal_strlit(",");
                assert((",")@ =~= seq![',']);
                assert(m.subrange(1, m.len() as int) =~= elems_model(els@).skip(from as int + 1));
            }
            out
        }
    }
}

/// The compact text of the members from `from` on, commas between.
fn compact_pairs_text(ps: &Vec<(String, JsonValue)>, from: usize) -> (out: String)
    requires
        from <= ps@.len(),
    ensures
        out@ == compact_pairs(pairs_model(ps@).skip(from as int)),
    decreases ps@, ps@.len() - from,
{
    let n = ps.len();
    let ghost m = pairs_model(ps@).skip(from as int);
    if from >= n {
        let out = String::new();
        proof {
            assert(m.len() == 0);
        }
        out
    } else {
        proof {
            assert(m[0] == pairs_model(ps@)[from as int]);
        }
        let mut out = String::from_str("\"");
        out.append(ps[from].0.as_str());
        out.append("\":");
        let vt = ps[from].1.to_text();
        out.append(vt.as_str());
        proof {
            reveal_strlit("\"");
            reveal_strlit("\":");
            assert(("\"")@ =~= seq!['"']);
            assert(("\":")@ =~= seq!['"', ':']);
        }
        if from + 1 == n {
            proof {
                assert(m.len() == 1);
            }
            out
        } else {
            out.append(",");
            let rest = compact_pairs_text(ps, from + 1);
            out.append(rest.as_str());
            proof {
                reveal_strlit(",");
                assert((",")@ =~= seq![',']);
                assert(m.subrange(1, m.len() as int) =~= pairs_model(ps@).skip(from as int + 1));
            }
            out
        }
    }
}

/// The indented multi-line rendering of `value`, starting at nesting
/// level `indent` (the root is usually rendered at level zero).
pub fn pretty_print_json(value: &JsonValue, indent: usize) -> (out: String)
    requires
        indent + depth_of(value.model()) <= usize::MAX,
    ensures
        out@ == pretty_of(value.model(), indent as nat),
    decreases value, 1int,
{
    match value {
        JsonValue::Str(_) => value.to_text(),
        JsonValue::Number(_) => value.to_text(),
        JsonValue::Boolean(_) => value.to_text(),
        JsonValue::Null => value.to_text(),
        JsonValue::Array(els) => {
            proof {
                assert(elems_model(els@).skip(0) =~= elems_model(els@));
            }
            let mut out = String::from_str("[\n");
            let inner = pretty_elems_text(els, 0, indent + 1);
            out.append(inner.as_str());
            push_indent(&mut out, indent);
            out.append("]");
            proof {
                reveal_strlit("[\n");
                reveal_strlit("]");
                assert(("[\n")@ =~= seq!['[', '\n']);
                assert(("]")@ =~= seq![']']);
                assert(elems_model(els@).skip(0) =~= elems_model(els@));
            }
            out
        },
        JsonValue::Object(ps) => {
            proof {
                assert(pairs_model(ps@).skip(0) =~= pairs_model(ps@));
            }
            let mut out = String::from_str("{\n");
            let inner = pretty_pairs_text(ps, 0, indent + 1);
            out.append(inner.as_str());
            push_indent(&mut out, indent);
            out.append("}");
            proof {
                reveal_strlit("{\n");
                reveal_strlit("}");
                assert(("{\n")@ =~= seq!['{', '\n']);
                assert(("}")@ =~= seq!['}']);
                assert(pairs_model(ps@).skip(0) =~= pairs_model(ps@));
            }
            out
        },
    }
}

/// One line per element from `from` on, at nesting level `ind`.
fn pretty_elems_text(els: &Vec<JsonValue>, from: usize, ind: usize) -> (out: String)
    requires
        from <= els@.len(),
        ind + depth_elems(elems_model(els@).skip(from as int)) <= usize::MAX,
    ensures
        out@ == pretty_elems(elems_model(els@).skip(from as int), ind as nat),
    decreases els@, els@.len() - from,
{
    let n = els.len();
    let ghost m = elems_model(els@).skip(from as int);
    if from >= n {
        let out = String::new();
        proof {
            assert(m.len() == 0);
        }
        out
    } else {
        proof {
            assert(m[0] == elems_model(els@)[from as int]);
            assert(m.subrange(1, m.len() as int) =~= elems_model(els@).skip(from as int + 1));
        }
        let mut out = String::new();
        push_indent(&mut out, ind);
        let vt = pretty_print_json(&els[from], ind);
        out.append(vt.as_str());
        if from + 1 < n {
            out.append(",");
            proof {
                reveal_strlit(",");
                assert((",")@ =~= seq![',']);
            }
        }
        out.append("\n");
        let rest = pretty_elems_text(els, from + 1, ind);
        out.append(rest.as_str());
        proof {
            reveal_strlit("\n");
            assert(("\n")@ =~= seq!['\n']);
        }
        out
    }
}

/// One line per member from `from` on, at nesting level `ind`.
fn pretty_pairs_text(ps: &Vec<(String, JsonValue)>, from: usize, ind: usize) -> (out: String)
    requires
        from <= ps@.len(),
        ind + depth_pairs(pairs_model(ps@).skip(from as int)) <= usize::MAX,
    ensures
        out@ == pretty_pairs(pairs_model(ps@).skip(from as int), ind as nat),
    decreases ps@, ps@.len() - from,
{
    let n = ps.len();
    let ghost m = pairs_model(ps@).skip(from as int);
    if from >= n {
        let out = String::new();
        proof {
            assert(m.len() == 0);
        }
        out
    } else {
        proof {
            assert(m[0] == pairs_model(ps@)[from as int]);
            assert(m.subrange(1, m.len() as int) =~= pairs_model(ps@).skip(from as int + 1));
        }
        let mut out = String::new();
        push_indent(&mut out, ind);
        out.append("\"");
        out.append(ps[from].0.as_str());
        out.append("\": ");
        let vt = pretty_print_json(&ps[from].1, ind);
        out.append(vt.as_str());
        proof {
            reveal_strlit("\"");
            reveal_strlit("\": ");
            assert(("\"")@ =~= seq!['"']);
            assert(("\": ")@ =~= seq!['"', ':', ' ']);
        }
        if from + 1 < n {
            out.append(",");
            proof {
                reveal_strlit(",");
                assert((",")@ =~= seq![',']);
            }
        }
        out.append("\n");
        let rest = pretty_pairs_text(ps, from + 1, ind);
        out.append(rest.as_str());
        proof {
            reveal_strlit("\n");
            assert(("\n")@ =~= seq!['\n']);
        }
        out
    }
}

} // verus!
