//! The query navigator: `get`, `index` and the dot-path `query` on a
//! parsed value, with their model-level specifications and laws.

use vstd::prelude::*;
use vstd::string::StrSliceExecFns;
use vstd::string::StringExecFns;

use crate::text::find_char;
use crate::text::digit_char;
use crate::text::is_digit;
use crate::text::lemma_find_char_hit;
use crate::text::lemma_find_char_miss;
use crate::value::pairs_model;
use crate::value::JsonModel;
use crate::value::JsonValue;

verus! {

/// The model of an optional borrowed result.
pub open spec fn opt_model(r: Option<&JsonValue>) -> Option<JsonModel> {
    match r {
        Some(v) => Some(v.model()),
        None => None,
    }
}

/// First-match lookup among object members: the earliest pair whose key
/// equals `k`, scanning in source order.
pub open spec fn get_pairs(ps: Seq<(Seq<char>, JsonModel)>, k: Seq<char>) -> Option<JsonModel>
    decreases ps.len(),
{
    if ps.len() == 0 {
        None
    } else if ps[0].0 == k {
        Some(ps[0].1)
    } else {
        get_pairs(ps.skip(1), k)
    }
}

/// `get` on the model: first-match lookup, on objects only.
pub open spec fn get_spec(m: JsonModel, k: Seq<char>) -> Option<JsonModel> {
    match m {
        JsonModel::Object(ps) => get_pairs(ps, k),
        _ => None,
    }
}

/// `index` on the model: the `i`-th element, on arrays only.
pub open spec fn index_spec(m: JsonModel, i: int) -> Option<JsonModel> {
    match m {
        JsonModel::Array(es) => if 0 <= i < es.len() {
            Some(es[i])
        } else {
            None
        },
        _ => None,
    }
}

/// Lookup returns the first pair bearing the key: if no pair before `i`
/// has key `k` and the pair at `i` does, the lookup answers with exactly
/// that pair's value — duplicates after `i` never win.
pub proof fn lemma_get_pairs_first(ps: Seq<(Seq<char>, JsonModel)>, k: Seq<char>, i: int)
    requires
        0 <= i < ps.len(),
        ps[i].0 == k,
        forall|j: int| 0 <= j < i ==> ps[j].0 != k,
    ensures
        get_pairs(ps, k) == Some(ps[i].1),
    decreases i,
{
    if i > 0 {
        lemma_get_pairs_first(ps.skip(1), k, i - 1);
    }
}

/// Lookup misses exactly when no pair bears the key.
pub proof fn lemma_get_pairs_none(ps: Seq<(Seq<char>, JsonModel)>, k: Seq<char>)
    requires
        forall|j: int| 0 <= j < ps.len() ==> ps[j].0 != k,
    ensures
        get_pairs(ps, k) == None::<JsonModel>,
    decreases ps.len(),
{
    if ps.len() > 0 {
        lemma_get_pairs_none(ps.skip(1), k);
    }
}

/// Every character of `d` is a digit.
pub open spec fn all_digits(d: Seq<char>) -> bool
    decreases d.len(),
{
    d.len() == 0 || (is_digit(d[0]) && all_digits(d.skip(1)))
}

pub proof fn lemma_all_digits_all(d: Seq<char>)
    requires
        forall|j: int| 0 <= j < d.len() ==> is_digit(d[j]),
    ensures
        all_digits(d),
    decreases d.len(),
{
    if d.len() > 0 {
        lemma_all_digits_all(d.skip(1));
    }
}

pub proof fn lemma_all_digits_at(d: Seq<char>, k: int)
    requires
        0 <= k < d.len(),
        !is_digit(d[k]),
    ensures
        !all_digits(d),
    decreases k,
{
    if k > 0 {
        lemma_all_digits_at(d.skip(1), k - 1);
    }
}

pub proof fn lemma_all_digits_index(d: Seq<char>, k: int)
    requires
        all_digits(d),
        0 <= k < d.len(),
    ensures
        is_digit(d[k]),
    decreases k,
{
    if k > 0 {
        lemma_all_digits_index(d.skip(1), k - 1);
    }
}

pub proof fn lemma_all_digits_take(d: Seq<char>, k: int)
    requires
        all_digits(d),
        0 <= k <= d.len(),
    ensures
        all_digits(d.take(k)),
    decreases k,
{
    if k > 0 {
        lemma_all_digits_take(d.skip(1), k - 1);
        assert(d.take(k).skip(1) =~= d.skip(1).take(k - 1));
    }
}

/// The value of a digit string, most significant digit first.
pub open spec fn digits_val(d: Seq<char>) -> int
    decreases d.len(),
{
    if d.len() == 0 {
        0
    } else {
        digits_val(d.take(d.len() - 1)) * 10 + ((d[d.len() - 1] as u32) - 0x30)
    }
}

pub proof fn lemma_digits_val_nonneg(d: Seq<char>)
    requires
        all_digits(d),
    ensures
        digits_val(d) >= 0,
    decreases d.len(),
{
    if d.len() > 0 {
        lemma_all_digits_take(d, d.len() - 1);
        lemma_all_digits_index(d, d.len() - 1);
        lemma_digits_val_nonneg(d.take(d.len() - 1));
    }
}

/// Longer digit prefixes never have smaller values.
pub proof fn lemma_digits_val_mono(d: Seq<char>, i: int, j: int)
    requires
        all_digits(d),
        0 <= i <= j <= d.len(),
    ensures
        digits_val(d.take(i)) <= digits_val(d.take(j)),
    decreases j - i,
{
    if i < j {
        lemma_digits_val_mono(d, i, j - 1);
        assert(d.take(j).take(j - 1) =~= d.take(j - 1));
        lemma_all_digits_take(d, j - 1);
        lemma_digits_val_nonneg(d.take(j - 1));
        lemma_all_digits_index(d, j - 1);
        assert(d.take(j)[j - 1] == d[j - 1]);
        assert(digits_val(d.take(j)) == digits_val(d.take(j - 1)) * 10 + ((d[j - 1] as u32)
            - 0x30));
    }
}

/// A path segment that selects an array index: mirrors a strict unsigned
/// decimal parse — an optional leading `+`, then at least one digit, all
/// digits, with a value the machine can hold. Anything else (an overflow
/// included) falls back to key lookup.
pub open spec fn seg_index(seg: Seq<char>) -> Option<int> {
    let d = if seg.len() > 0 && seg[0] == '+' {
        seg.skip(1)
    } else {
        seg
    };
    if d.len() > 0 && all_digits(d) && digits_val(d) <= usize::MAX {
        Some(digits_val(d))
    } else {
        None
    }
}

/// One query step: a segment that reads as an index resolves by `index`,
/// any other by `get`.
pub open spec fn step_spec(m: JsonModel, seg: Seq<char>) -> Option<JsonModel> {
    match seg_index(seg) {
        Some(i) => index_spec(m, i),
        None => get_spec(m, seg),
    }
}

/// `query` on the model: the segments applied left to right, the first
/// miss short-circuiting the whole query to `None`.
pub open spec fn query_spec(m: JsonModel, segs: Seq<Seq<char>>) -> Option<JsonModel>
    decreases segs.len(),
{
    if segs.len() == 0 {
        Some(m)
    } else {
        match step_spec(m, segs[0]) {
            Some(m2) => query_spec(m2, segs.skip(1)),
            None => None,
        }
    }
}

/// The `.`-separated segments of a path, as splitting on `.` yields them:
/// an empty path gives one empty segment, and separators at the ends give
/// empty segments.
pub open spec fn split_dots(s: Seq<char>) -> Seq<Seq<char>>
    decreases s.len(),
{
    match find_char(s, '.') {
        None => seq![s],
        Some(k) => if k < s.len() {
            seq![s.take(k as int)] + split_dots(s.skip(k as int + 1))
        } else {
            seq![s]
        },
    }
}

/// Query composition: resolving a concatenation of segment lists is
/// resolving the first list, then the second from wherever the first
/// landed; a miss in the first list is a miss of the whole.
pub proof fn lemma_query_append(m: JsonModel, s1: Seq<Seq<char>>, s2: Seq<Seq<char>>)
    ensures
        query_spec(m, s1 + s2) == (match query_spec(m, s1) {
            Some(m2) => query_spec(m2, s2),
            None => None,
        }),
    decreases s1.len(),
{
    if s1.len() == 0 {
        assert(s1 + s2 =~= s2);
    } else {
        assert((s1 + s2)[0] == s1[0]);
        assert((s1 + s2).skip(1) =~= s1.skip(1) + s2);
        match step_spec(m, s1[0]) {
            Some(m2) => {
                lemma_query_append(m2, s1.skip(1), s2);
            },
            None => {},
        }
    }
}

/// A strict unsigned decimal parse of one segment, `None` where the
/// segment is not all digits or its value does not fit.
fn parse_index_segment(seg: &str) -> (r: Option<usize>)
    ensures
        match r {
            Some(i) => seg_index(seg@) == Some(i as int),
            None => seg_index(seg@) == None::<int>,
        },
{
    let n = seg.unicode_len();
    let start: usize = if n > 0 && seg.get_char(0) == '+' {
        1
    } else {
        0
    };
    let ghost d = if seg@.len() > 0 && seg@[0] == '+' {
        seg@.skip(1)
    } else {
        seg@
    };
    proof {
        assert(d =~= seg@.subrange(start as int, n as int));
    }
    if start >= n {
        proof {
            assert(d.len() == 0);
        }
        return None;
    }
    let mut acc: usize = 0;
    let mut i = start;
    loop
        invariant
            n == seg@.len(),
            start <= i <= n,
            start < n,
            start == (if seg@.len() > 0 && seg@[0] == '+' {
                1int
            } else {
                0int
            }),
            d == seg@.subrange(start as int, n as int),
            forall|j: int| start <= j < i ==> is_digit(seg@[j]),
            acc == digits_val(d.take(i - start)),
        ensures
            i == n,
            forall|j: int| start <= j < n ==> is_digit(seg@[j]),
            acc == digits_val(d),
        decreases n - i,
    {
        if i >= n {
            proof {
                assert(d.take(n - start) =~= d);
            }
            break ;
        }
        let c = seg.get_char(i);
        if !digit_char(c) {
            proof {
                assert(d =~= (if seg@.len() > 0 && seg@[0] == '+' {
                    seg@.skip(1)
                } else {
                    seg@
                }));
                assert(d[i - start] == seg@[i as int]);
                lemma_all_digits_at(d, i - start);
            }
            return None;
        }
        let g = (c as u32 - 0x30) as usize;
        proof {
            assert forall|j: int| 0 <= j < i + 1 - start implies is_digit(d[j]) by {
                assert(d[j] == seg@[j + start]);
            }
            lemma_all_digits_all(d.take(i + 1 - start));
            assert(d.take(i + 1 - start).take(i - start) =~= d.take(i - start));
            assert(d.take(i + 1 - start)[i - start] == seg@[i as int]);
        }
        let wide: u128 = acc as u128 * 10 + g as u128;
        if wide > usize::MAX as u128 {
            proof {
                assert(d =~= (if seg@.len() > 0 && seg@[0] == '+' {
                    seg@.skip(1)
                } else {
                    seg@
                }));
                assert(digits_val(d.take(i + 1 - start)) == acc * 10 + g);
                if all_digits(d) {
                    lemma_digits_val_mono(d, i + 1 - start, d.len() as int);
                    assert(d.take(d.len() as int) =~= d);
                }
            }
            return None;
        }
        acc = wide as usize;
        proof {
            assert(digits_val(d.take(i + 1 - start)) == acc);
        }
        i += 1;
    }
    proof {
        assert forall|j: int| 0 <= j < d.len() implies is_digit(d[j]) by {
            assert(d[j] == seg@[j + start]);
        }
        lemma_all_digits_all(d);
    }
    Some(acc)
}

/// Split a path on `.` into its segments.
fn split_segments<'a>(path: &'a str) -> (segs: Vec<&'a str>)
    ensures
        segs@.len() == split_dots(path@).len(),
        forall|j: int| 0 <= j < segs@.len() ==> segs@[j]@ == split_dots(path@)[j],
    decreases path@.len(),
{
    let n = path.unicode_len();
    let mut i: usize = 0;
    loop
        invariant
            n == path@.len(),
            i <= n,
            forall|j: int| 0 <= j < i ==> path@[j] != '.',
        ensures
            i <= n,
            i < n ==> path@[i as int] == '.',
            forall|j: int| 0 <= j < i ==> path@[j] != '.',
        decreases n - i,
    {
        if i >= n {
            break ;
        }
        if path.get_char(i) == '.' {
            break ;
        }
        i += 1;
    }
    if i < n {
        proof {
            lemma_find_char_hit(path@, '.', i as int);
        }
        let head = path.substring_char(0, i);
        let tail = path.substring_char(i + 1, n);
        proof {
            assert(head@ =~= path@.take(i as int));
            assert(tail@ =~= path@.skip(i as int + 1));
        }
        let mut segs = split_segments(tail);
        segs.insert(0, head);
        proof {
            let full = split_dots(path@);
            assert(full == seq![path@.take(i as int)] + split_dots(tail@));
            assert forall|j: int| 0 <= j < segs@.len() implies segs@[j]@ == full[j] by {
                if j > 0 {
                    assert(segs@[j] == segs@.subrange(1, segs@.len() as int)[j - 1]);
                }
            }
        }
        segs
    } else {
        proof {
            lemma_find_char_miss(path@, '.');
        }
        let mut segs = Vec::new();
        segs.push(path);
        proof {
            assert(split_dots(path@) == seq![path@]);
        }
        segs
    }
}

impl JsonValue {
    /// On an object, the value of the first member whose key equals
    /// `key` — with duplicate keys the earliest occurrence wins; `None`
    /// for missing keys and for every non-object value.
    pub fn get<'a>(&'a self, key: &str) -> (r: Option<&'a JsonValue>)
        ensures
            opt_model(r) == get_spec(self.model(), key@),
    {
        match self {
            JsonValue::Object(ps) => {
                let key_owned = String::from_str(key);
                let n = ps.len();
                let mut i: usize = 0;
                loop
                    invariant
                        n == ps@.len(),
                        i <= n,
                        key_owned@ == key@,
                        forall|j: int| 0 <= j < i ==> ps@[j].0@ != key@,
                    ensures
                        i <= n,
                        i < n ==> ps@[i as int].0@ == key@,
                        forall|j: int| 0 <= j < i ==> ps@[j].0@ != key@,
                    decreases n - i,
                {
                    if i >= n {
                        break ;
                    }
                    if ps[i].0 == key_owned {
                        break ;
                    }
                    i += 1;
                }
                if i < n {
                    proof {
                        assert forall|j: int| 0 <= j < i implies pairs_model(ps@)[j].0 != key@ by {
                            assert(pairs_model(ps@)[j].0 == ps@[j].0@);
                        }
                        lemma_get_pairs_first(pairs_model(ps@), key@, i as int);
                    }
                    Some(&ps[i].1)
                } else {
                    proof {
                        assert forall|j: int|
                            0 <= j < pairs_model(ps@).len() implies pairs_model(ps@)[j].0
                            != key@ by {
                            assert(pairs_model(ps@)[j].0 == ps@[j].0@);
                        }
                        lemma_get_pairs_none(pairs_model(ps@), key@);
                    }
                    None
                }
            },
            _ => None,
        }
    }

    /// On an array, the `i`-th element, 0-indexed; `None` out of range
    /// and for every non-array value.
    pub fn index<'a>(&'a self, i: usize) -> (r: Option<&'a JsonValue>)
        ensures
            opt_model(r) == index_spec(self.model(), i as int),
    {
        match self {
            JsonValue::Array(els) => {
                if i < els.len() {
                    Some(&els[i])
                } else {
                    None
                }
            },
            _ => None,
        }
    }

    /// Resolve a dot-separated path: each segment resolves by `index`
    /// when it reads as a non-negative machine integer and by `get`
    /// otherwise, left to right, the first miss answering `None`.
    pub fn query<'a>(&'a self, path: &str) -> (r: Option<&'a JsonValue>)
        ensures
            opt_model(r) == query_spec(self.model(), split_dots(path@)),
    {
        let segs = split_segments(path);
        let ghost gsegs = split_dots(path@);
        let mut current: &'a JsonValue = self;
        let n = segs.len();
        let mut i: usize = 0;
        proof {
            assert(gsegs.skip(0) =~= gsegs);
        }
        loop
            invariant
                n == segs@.len(),
                i <= n,
                gsegs == split_dots(path@),
                gsegs.len() == segs@.len(),
                forall|j: int| 0 <= j < segs@.len() ==> segs@[j]@ == gsegs[j],
                query_spec(self.model(), gsegs) == query_spec(current.model(), gsegs.skip(i as int)),
            ensures
                i == n,
                query_spec(self.model(), gsegs) == query_spec(
                    current.model(),
                    gsegs.skip(i as int),
                ),
            decreases n - i,
        {
            if i >= n {
                break ;
            }
            let seg = segs[i];
            let step = match parse_index_segment(seg) {
                Some(idx) => current.index(idx),
                None => current.get(seg),
            };
            proof {
                assert(gsegs.skip(i as int)[0] == gsegs[i as int]);
                assert(gsegs.skip(i as int).skip(1) =~= gsegs.skip(i as int + 1));
            }
            match step {
                Some(v) => {
                    current = v;
                },
                None => {
                    return None;
                },
            }
            i += 1;
        }
        proof {
            assert(gsegs.skip(i as int).len() == 0);
        }
        Some(current)
    }
}

} // verus!
