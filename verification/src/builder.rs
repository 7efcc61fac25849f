//! The value builder: maps one syntax value node — and its transitive
//! children — to exactly one shape of the value model, or to the first
//! error met in source order.

use vstd::prelude::*;
use vstd::string::StrSliceExecFns;

use crate::errors::{BaseError, ConversionError, SpecBaseError, SpecError};
use crate::model::{fields_view, values_view, Field, ListValue, SpecField, SpecValue, Struct, Value};
use crate::model::lemma_fields_view_index;
use crate::numeric::{is_number_literal, spec_is_number};
use crate::syntax::{lemma_nodes_view_index, lemma_pairs_view_index};
use crate::syntax::{nodes_view, pairs_view, ArrayNode, ObjectNode, SpecNode, SpecPair, ValueNode};

verus! {

/// The sentinel marker wrapping long-form string literals.
pub open spec fn escape_mark() -> Seq<char> {
    "<escape>"@
}

pub open spec fn spec_has_escape_prefix(s: Seq<char>) -> bool {
    s.len() >= 8 && s.take(8) == escape_mark()
}

pub open spec fn spec_has_escape_suffix(s: Seq<char>) -> bool {
    s.len() >= 8 && s.skip(s.len() - 8) == escape_mark()
}

/// The text with a leading marker removed if present, then a trailing
/// marker removed from the remainder if present. Each end is examined
/// once: no repeated stripping, and nothing inside is rewritten.
pub open spec fn spec_strip(s: Seq<char>) -> Seq<char> {
    let a = if spec_has_escape_prefix(s) {
        s.skip(8)
    } else {
        s
    };
    if spec_has_escape_suffix(a) {
        a.take(a.len() - 8)
    } else {
        a
    }
}

/// Whether the eight characters of `s` starting at `at` are the marker.
fn has_marker_at(s: &str, at: usize, n: usize) -> (r: bool)
    requires
        n == s@.len(),
        at <= n,
    ensures
        r == (n - at >= 8 && s@.subrange(at as int, at + 8) == escape_mark()),
{
    proof {
        reveal_strlit("<escape>");
    }
    if n - at < 8 {
        return false;
    }
    let mark: &str = "<escape>";
    let mut j: usize = 0;
    while j < 8
        invariant
            j <= 8,
            at + 8 <= n == s@.len(),
            mark@ == escape_mark(),
            escape_mark().len() == 8,
            forall|k: int| 0 <= k < j ==> s@[at + k] == escape_mark()[k],
        decreases 8 - j,
    {
        let c = s.get_char(at + j);
        let m = mark.get_char(j);
        if c != m {
            proof {
                assert(s@.subrange(at as int, at + 8)[j as int] == s@[at + j]);
            }
            return false;
        }
        j = j + 1;
    }
    proof {
        assert forall|k: int| 0 <= k < 8 implies s@.subrange(at as int, at + 8)[k]
            == escape_mark()[k] by {
            assert(s@.subrange(at as int, at + 8)[k] == s@[at + k]);
        }
        assert(s@.subrange(at as int, at + 8) =~= escape_mark());
    }
    true
}

/// Strips the sentinel marker from the start and from the end of the
/// text, each independently and at most once.
pub fn strip_escape_tokens(text: &str) -> (r: &str)
    ensures
        r@ == spec_strip(text@),
{
    proof {
        reveal_strlit("<escape>");
    }
    let n = text.unicode_len();
    let mut lo: usize = 0;
    if has_marker_at(text, 0, n) {
        lo = 8;
    }
    proof {
        if n >= 8 {
            assert(text@.take(8) =~= text@.subrange(0, 8));
        }
        assert((if spec_has_escape_prefix(text@) {
            text@.skip(8)
        } else {
            text@
        }) =~= text@.subrange(lo as int, n as int));
    }
    let ghost a = text@.subrange(lo as int, n as int);
    let mut hi = n;
    if n - lo >= 8 {
        if has_marker_at(text, n - 8, n) {
            hi = n - 8;
        }
    }
    proof {
        if a.len() >= 8 {
            assert(a.skip(a.len() - 8) =~= text@.subrange(n - 8, n as int));
        }
        assert((if spec_has_escape_suffix(a) {
            a.take(a.len() - 8)
        } else {
            a
        }) =~= text@.subrange(lo as int, hi as int));
    }
    text.substring_char(lo, hi)
}

/// A key already accepted into the fields.
pub open spec fn spec_key_seen(fs: Seq<SpecField>, k: Seq<char>) -> bool {
    exists|i: int| 0 <= i < fs.len() && (#[trigger] fs[i]).name == k
}

/// What one value node converts to.
pub open spec fn spec_build_value(n: SpecNode) -> Result<SpecValue, SpecError>
    decreases n,
{
    match n {
        SpecNode::StrTok(t) => Ok(SpecValue::Text(spec_strip(t))),
        SpecNode::NumberTok(t) => if spec_is_number(t) {
            Ok(SpecValue::Number(t))
        } else {
            Err(ConversionError::spec_new(SpecBaseError::NumberParse(t)))
        },
        SpecNode::ObjectNode(ps) => match spec_build_object(ps) {
            Ok(fs) => Ok(SpecValue::Object(fs)),
            Err(e) => Err(e),
        },
        SpecNode::ArrayNode(ns) => match spec_build_elems(ns) {
            Ok(vs) => Ok(SpecValue::Array(vs)),
            Err(e) => Err(e),
        },
        SpecNode::BoolTok(t) => Ok(SpecValue::Boolean(t == "true"@)),
        SpecNode::NullTok => Ok(SpecValue::Null),
        SpecNode::OtherNode(t) => Err(
            ConversionError::spec_new(SpecBaseError::UnhandledValue(t)),
        ),
    }
}

/// What one pair adds to the fields built so far: nothing for a
/// duplicate key, a new field otherwise; a malformed pair or a failing
/// value aborts, the failure wrapped with the pair's key.
pub open spec fn spec_add_pair(fs: Seq<SpecField>, p: SpecPair) -> Result<
    Seq<SpecField>,
    SpecError,
>
    decreases p,
{
    match p.id {
        None => Err(ConversionError::spec_new(SpecBaseError::PairIdMissing)),
        Some(k) => match p.value {
            None => Err(ConversionError::spec_new(SpecBaseError::PairValueMissing)),
            Some(vn) => if k.len() == 0 {
                Err(ConversionError::spec_new(SpecBaseError::EmptyKey))
            } else if spec_key_seen(fs, k) {
                Ok(fs)
            } else {
                match spec_build_value(vn) {
                    Ok(v) => Ok(fs.push(SpecField { name: k, value: v })),
                    Err(e) => Err(ConversionError::spec_wrap(k, e)),
                }
            },
        },
    }
}

/// What an object's pairs convert to, processed in source order with
/// the first failure winning.
pub open spec fn spec_build_object(ps: Seq<SpecPair>) -> Result<Seq<SpecField>, SpecError>
    decreases ps,
{
    if ps.len() == 0 {
        Ok(Seq::empty())
    } else {
        match spec_build_object(ps.drop_last()) {
            Err(e) => Err(e),
            Ok(fs) => spec_add_pair(fs, ps.last()),
        }
    }
}

/// What an array's elements convert to, in source order with the first
/// failure winning.
pub open spec fn spec_build_elems(ns: Seq<SpecNode>) -> Result<Seq<SpecValue>, SpecError>
    decreases ns,
{
    if ns.len() == 0 {
        Ok(Seq::empty())
    } else {
        match spec_build_elems(ns.drop_last()) {
            Err(e) => Err(e),
            Ok(vs) => match spec_build_value(ns.last()) {
                Ok(v) => Ok(vs.push(v)),
                Err(e) => Err(e),
            },
        }
    }
}

pub open spec fn value_result_view(r: Result<Value, ConversionError>) -> Result<
    SpecValue,
    SpecError,
> {
    match r {
        Ok(v) => Ok(v@),
        Err(e) => Err(e@),
    }
}

pub open spec fn struct_result_view(r: Result<Struct, ConversionError>) -> Result<
    Seq<SpecField>,
    SpecError,
> {
    match r {
        Ok(s) => Ok(s@),
        Err(e) => Err(e@),
    }
}

pub open spec fn list_result_view(r: Result<ListValue, ConversionError>) -> Result<
    Seq<SpecValue>,
    SpecError,
> {
    match r {
        Ok(l) => Ok(l@),
        Err(e) => Err(e@),
    }
}

/// A failure in a prefix of the pairs decides the whole object.
pub proof fn lemma_object_prefix_error(ps: Seq<SpecPair>, i: int, e: SpecError)
    requires
        0 <= i <= ps.len(),
        spec_build_object(ps.take(i)) == Err::<Seq<SpecField>, SpecError>(e),
    ensures
        spec_build_object(ps) == Err::<Seq<SpecField>, SpecError>(e),
    decreases ps.len() - i,
{
    if i < ps.len() {
        assert(ps.take(i + 1).drop_last() =~= ps.take(i));
        assert(spec_build_object(ps.take(i + 1)) == Err::<Seq<SpecField>, SpecError>(e));
        lemma_object_prefix_error(ps, i + 1, e);
    } else {
        assert(ps.take(i) =~= ps);
    }
}

/// A failure in a prefix of the elements decides the whole array.
pub proof fn lemma_elems_prefix_error(ns: Seq<SpecNode>, i: int, e: SpecError)
    requires
        0 <= i <= ns.len(),
        spec_build_elems(ns.take(i)) == Err::<Seq<SpecValue>, SpecError>(e),
    ensures
        spec_build_elems(ns) == Err::<Seq<SpecValue>, SpecError>(e),
    decreases ns.len() - i,
{
    if i < ns.len() {
        assert(ns.take(i + 1).drop_last() =~= ns.take(i));
        assert(spec_build_elems(ns.take(i + 1)) == Err::<Seq<SpecValue>, SpecError>(e));
        lemma_elems_prefix_error(ns, i + 1, e);
    } else {
        assert(ns.take(i) =~= ns);
    }
}

/// Whether `key` was already accepted into `fields`.
fn key_seen(fields: &Vec<Field>, key: &String) -> (r: bool)
    ensures
        r == spec_key_seen(fields_view(fields@), key@),
{
    proof {
        lemma_fields_view_index(fields@);
    }
    let n = fields.len();
    let mut i: usize = 0;
    while i < n
        invariant
            0 <= i <= n == fields@.len(),
            fields_view(fields@).len() == n,
            forall|j: int| 0 <= j < n ==> fields_view(fields@)[j] == #[trigger] fields@[j]@,
            forall|j: int| 0 <= j < i ==> (#[trigger] fields_view(fields@)[j]).name != key@,
        decreases n - i,
    {
        let hit = fields[i].name.eq(key);
        proof {
            assert(fields_view(fields@)[i as int] == fields@[i as int]@);
        }
        if hit {
            return true;
        }
        i = i + 1;
    }
    false
}

/// Converts one value node, recursively for nested objects and arrays.
pub fn parse_value(value_ctx: &ValueNode) -> (r: Result<Value, ConversionError>)
    ensures
        value_result_view(r) == spec_build_value(value_ctx@),
    decreases value_ctx,
{
    match value_ctx {
        ValueNode::StrTok(t) => Ok(Value::Text(strip_escape_tokens(t.as_str()).to_owned())),
        ValueNode::NumberTok(t) => if is_number_literal(t.as_str()) {
            Ok(Value::Number(t.clone()))
        } else {
            Err(ConversionError::new(BaseError::NumberParse(t.clone())))
        },
        ValueNode::ObjectNode(o) => match parse_object(o) {
            Ok(s) => Ok(Value::Object(s)),
            Err(e) => Err(e),
        },
        ValueNode::ArrayNode(a) => match parse_array(a) {
            Ok(l) => Ok(Value::Array(l)),
            Err(e) => Err(e),
        },
        ValueNode::BoolTok(t) => {
            let lit: String = "true".to_owned();
            Ok(Value::Boolean(*t == lit))
        },
        ValueNode::NullTok => Ok(Value::Null),
        ValueNode::OtherNode(t) => Err(ConversionError::new(BaseError::UnhandledValue(t.clone()))),
    }
}

/// Converts every element of an array node in source order; the first
/// failing element aborts with no partial result.
pub fn parse_array(array_ctx: &ArrayNode) -> (r: Result<ListValue, ConversionError>)
    ensures
        list_result_view(r) == spec_build_elems(array_ctx@),
    decreases array_ctx,
{
    let ghost all = nodes_view(array_ctx.values@);
    proof {
        lemma_nodes_view_index(array_ctx.values@);
        assert(all.take(0) =~= Seq::<SpecNode>::empty());
    }
    let mut out: Vec<Value> = Vec::new();
    let n = array_ctx.values.len();
    let mut i: usize = 0;
    while i < n
        invariant
            0 <= i <= n == array_ctx.values@.len(),
            all == nodes_view(array_ctx.values@),
            all.len() == n,
            forall|j: int| 0 <= j < n ==> all[j] == #[trigger] array_ctx.values@[j]@,
            spec_build_elems(all.take(i as int)) == Ok::<Seq<SpecValue>, SpecError>(
                values_view(out@),
            ),
        decreases n - i,
    {
        let ghost out_before = out@;
        let element = &array_ctx.values[i];
        proof {
            assert(all.take(i + 1).drop_last() =~= all.take(i as int));
            assert(all.take(i + 1).last() == element@);
        }
        match parse_value(element) {
            Ok(v) => {
                let ghost vg = v@;
                out.push(v);
                proof {
                    assert(out@.drop_last() =~= out_before);
                    assert(values_view(out@) == values_view(out_before).push(vg));
                    assert(spec_build_elems(all.take(i + 1)) == Ok::<Seq<SpecValue>, SpecError>(
                        values_view(out@),
                    ));
                }
            },
            Err(e) => {
                proof {
                    assert(spec_build_elems(all.take(i + 1)) == Err::<Seq<SpecValue>, SpecError>(
                        e@,
                    ));
                    lemma_elems_prefix_error(all, i + 1, e@);
                }
                return Err(e);
            },
        }
        i = i + 1;
    }
    proof {
        assert(all.take(n as int) =~= all);
    }
    Ok(ListValue { values: out })
}

/// Converts an object node's pairs in source order: the first
/// occurrence of a key wins, later duplicates are skipped; a malformed
/// pair or a failing value aborts the whole object.
pub fn parse_object(object_ctx: &ObjectNode) -> (r: Result<Struct, ConversionError>)
    ensures
        struct_result_view(r) == spec_build_object(object_ctx@),
    decreases object_ctx,
{
    let ghost all = pairs_view(object_ctx.pairs@);
    proof {
        lemma_pairs_view_index(object_ctx.pairs@);
        assert(all.take(0) =~= Seq::<SpecPair>::empty());
    }
    let mut fields: Vec<Field> = Vec::new();
    let n = object_ctx.pairs.len();
    let mut i: usize = 0;
    while i < n
        invariant
            0 <= i <= n == object_ctx.pairs@.len(),
            all == pairs_view(object_ctx.pairs@),
            all.len() == n,
            forall|j: int| 0 <= j < n ==> all[j] == #[trigger] object_ctx.pairs@[j]@,
            spec_build_object(all.take(i as int)) == Ok::<Seq<SpecField>, SpecError>(
                fields_view(fields@),
            ),
        decreases n - i,
    {
        let ghost fields_before = fields@;
        let pair = &object_ctx.pairs[i];
        proof {
            assert(all.take(i + 1).drop_last() =~= all.take(i as int));
            assert(all.take(i + 1).last() == pair@);
        }
        match &pair.id {
            None => {
                let e = ConversionError::new(BaseError::PairIdMissing);
                proof {
                    assert(spec_build_object(all.take(i + 1)) == spec_add_pair(
                        fields_view(fields@),
                        pair@,
                    ));
                    assert(spec_add_pair(fields_view(fields@), pair@) == Err::<
                        Seq<SpecField>,
                        SpecError,
                    >(e@));
                    lemma_object_prefix_error(all, i + 1, e@);
                }
                return Err(e);
            },
            Some(key) => match &pair.value {
                None => {
                    let e = ConversionError::new(BaseError::PairValueMissing);
                    proof {
                        assert(spec_build_object(all.take(i + 1)) == spec_add_pair(
                            fields_view(fields@),
                            pair@,
                        ));
                        assert(spec_add_pair(fields_view(fields@), pair@) == Err::<
                            Seq<SpecField>,
                            SpecError,
                        >(e@));
                        lemma_object_prefix_error(all, i + 1, e@);
                    }
                    return Err(e);
                },
                Some(value_node) => {
                    if key.as_str().unicode_len() == 0 {
                        let e = ConversionError::new(BaseError::EmptyKey);
                        proof {
                            assert(spec_build_object(all.take(i + 1)) == spec_add_pair(
                                fields_view(fields@),
                                pair@,
                            ));
                            assert(spec_add_pair(fields_view(fields@), pair@) == Err::<
                                Seq<SpecField>,
                                SpecError,
                            >(e@));
                            lemma_object_prefix_error(all, i + 1, e@);
                        }
                        return Err(e);
                    }
                    let seen = key_seen(&fields, key);
                    if !seen {
                        match parse_value(value_node) {
                            Ok(v) => {
                                let ghost vg = v@;
                                let ghost kg = key@;
                                fields.push(Field { name: key.clone(), value: v });
                                proof {
                                    assert(fields@.drop_last() =~= fields_before);
                                    assert(fields@.last()@ == SpecField { name: kg, value: vg });
                                    assert(fields_view(fields@) == fields_view(
                                        fields_before,
                                    ).push(SpecField { name: kg, value: vg }));
                                }
                            },
                            Err(e) => {
                                let we = e.wrap(key);
                                proof {
                                    assert(spec_build_object(all.take(i + 1)) == spec_add_pair(
                                        fields_view(fields@),
                                        pair@,
                                    ));
                                    assert(spec_add_pair(fields_view(fields@), pair@) == Err::<
                                        Seq<SpecField>,
                                        SpecError,
                                    >(we@));
                                    lemma_object_prefix_error(all, i + 1, we@);
                                }
                                return Err(we);
                            },
                        }
                    }
                },
            },
        }
        i = i + 1;
    }
    proof {
        assert(all.take(n as int) =~= all);
    }
    Ok(Struct { fields })
}

/// A scalar token converts by its text alone: a numeric token of the
/// number grammar yields that number and any other numeric text yields
/// the number-parse failure; a boolean token yields whether its text is
/// exactly `true` — any other spelling, `false` included, yields false;
/// a null token yields `Null`.
pub proof fn lemma_scalar_round_trip(t: Seq<char>)
    ensures
        spec_is_number(t) ==> spec_build_value(SpecNode::NumberTok(t)) == Ok::<
            SpecValue,
            SpecError,
        >(SpecValue::Number(t)),
        !spec_is_number(t) ==> spec_build_value(SpecNode::NumberTok(t)) == Err::<
            SpecValue,
            SpecError,
        >(ConversionError::spec_new(SpecBaseError::NumberParse(t))),
        spec_build_value(SpecNode::BoolTok(t)) == Ok::<SpecValue, SpecError>(
            SpecValue::Boolean(t == "true"@),
        ),
        spec_build_value(SpecNode::NullTok) == Ok::<SpecValue, SpecError>(SpecValue::Null),
{
}

/// Stripping is boundary-only and not recursive: a text wrapped in the
/// marker at both ends strips to exactly its interior, whatever the
/// interior holds.
pub proof fn lemma_strip_wrapped(s: Seq<char>)
    ensures
        spec_strip(escape_mark() + s + escape_mark()) == s,
{
    reveal_strlit("<escape>");
    let w = escape_mark() + s + escape_mark();
    assert(w.take(8) =~= escape_mark());
    let a = w.skip(8);
    assert(a.skip(a.len() - 8) =~= escape_mark());
    assert(a.take(a.len() - 8) =~= s);
}

/// Each end is examined independently: with only a leading marker the
/// prefix is stripped and the rest passes through unchanged.
pub proof fn lemma_strip_prefix_only(s: Seq<char>)
    requires
        !spec_has_escape_suffix(s),
    ensures
        spec_strip(escape_mark() + s) == s,
{
    reveal_strlit("<escape>");
    let w = escape_mark() + s;
    assert(w.take(8) =~= escape_mark());
    assert(w.skip(8) =~= s);
}

/// A text with the marker at neither end passes through unchanged.
pub proof fn lemma_strip_unmarked(s: Seq<char>)
    requires
        !spec_has_escape_prefix(s),
        !spec_has_escape_suffix(s),
    ensures
        spec_strip(s) == s,
{
}

pub open spec fn spec_keys_unique(fs: Seq<SpecField>) -> bool {
    forall|i: int, j: int|
        0 <= i < j < fs.len() ==> (#[trigger] fs[i]).name != (#[trigger] fs[j]).name
}

/// The first occurrence of a key wins: every successfully built object
/// has unique keys.
pub proof fn lemma_object_keys_unique(ps: Seq<SpecPair>, fs: Seq<SpecField>)
    requires
        spec_build_object(ps) == Ok::<Seq<SpecField>, SpecError>(fs),
    ensures
        spec_keys_unique(fs),
    decreases ps,
{
    if ps.len() == 0 {
        assert(fs == Seq::<SpecField>::empty());
    } else {
        match spec_build_object(ps.drop_last()) {
            Err(_) => {
                assert(false);
            },
            Ok(fs0) => {
                lemma_object_keys_unique(ps.drop_last(), fs0);
                let p = ps.last();
                assert(spec_add_pair(fs0, p) == Ok::<Seq<SpecField>, SpecError>(fs));
                match p.id {
                    None => {
                        assert(false);
                    },
                    Some(k) => match p.value {
                        None => {
                            assert(false);
                        },
                        Some(vn) => {
                            if k.len() == 0 {
                                assert(false);
                            } else if spec_key_seen(fs0, k) {
                                assert(fs == fs0);
                            } else {
                                match spec_build_value(vn) {
                                    Err(_) => {
                                        assert(false);
                                    },
                                    Ok(v) => {
                                        let f = SpecField { name: k, value: v };
                                        assert(fs == fs0.push(f));
                                        assert forall|i: int, j: int|
                                            0 <= i < j < fs.len() implies (
                                        #[trigger] fs[i]).name != (#[trigger] fs[j]).name by {
                                            if j < fs.len() - 1 {
                                                assert(fs[i] == fs0[i]);
                                                assert(fs[j] == fs0[j]);
                                            } else {
                                                assert(fs[j] == f);
                                                assert(fs[i] == fs0[i]);
                                            }
                                        }
                                    },
                                }
                            }
                        },
                    },
                }
            },
        }
    }
}

/// A later pair whose key was already accepted adds nothing: the
/// object's fields are unchanged by the duplicate, and no error is
/// raised.
pub proof fn lemma_duplicate_key_skipped(
    ps: Seq<SpecPair>,
    p: SpecPair,
    k: Seq<char>,
    fs: Seq<SpecField>,
)
    requires
        spec_build_object(ps) == Ok::<Seq<SpecField>, SpecError>(fs),
        p.id == Some(k),
        p.value is Some,
        k.len() > 0,
        spec_key_seen(fs, k),
    ensures
        spec_build_object(ps.push(p)) == Ok::<Seq<SpecField>, SpecError>(fs),
{
    assert(ps.push(p).drop_last() =~= ps);
    assert(ps.push(p).last() == p);
    assert(spec_add_pair(fs, p) == Ok::<Seq<SpecField>, SpecError>(fs));
    assert(spec_build_object(ps.push(p)) == spec_add_pair(fs, p));
}

/// An array converts element-wise in source order: entry `i` of the
/// result is the conversion of element `i`.
pub proof fn lemma_array_elementwise(ns: Seq<SpecNode>, vs: Seq<SpecValue>)
    requires
        spec_build_elems(ns) == Ok::<Seq<SpecValue>, SpecError>(vs),
    ensures
        vs.len() == ns.len(),
        forall|i: int|
            0 <= i < ns.len() ==> spec_build_value(#[trigger] ns[i]) == Ok::<
                SpecValue,
                SpecError,
            >(vs[i]),
    decreases ns,
{
    if ns.len() > 0 {
        match spec_build_elems(ns.drop_last()) {
            Err(_) => {
                assert(false);
            },
            Ok(vs0) => {
                match spec_build_value(ns.last()) {
                    Err(_) => {
                        assert(false);
                    },
                    Ok(v) => {
                        assert(vs == vs0.push(v));
                        lemma_array_elementwise(ns.drop_last(), vs0);
                        assert forall|i: int| 0 <= i < ns.len() implies spec_build_value(
                            #[trigger] ns[i],
                        ) == Ok::<SpecValue, SpecError>(vs[i]) by {
                            if i < ns.len() - 1 {
                                assert(ns.drop_last()[i] == ns[i]);
                                assert(vs0.push(v)[i] == vs0[i]);
                            } else {
                                assert(ns[i] == ns.last());
                                assert(vs0.push(v)[i] == v);
                            }
                        }
                    },
                }
            },
        }
    }
}

} // verus!