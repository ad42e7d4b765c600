use vstd::prelude::*;
use crate::column::find_col_idx;
use crate::error::Error;
use crate::floats::{float_eq, float_eq_lit, float_ge, float_ge_lit};
use crate::parser::Comparison;
use crate::record::{Record, RecordHeader, RecordM};
use crate::serial_value::{SerialValue, ValM};
use crate::text::{
    eq_ignore_case, eq_ignore_case_exec, lex_ge, lex_ge_exec, parse_i64, parse_i64_spec,
    string_chars,
};

verus! {

/// Whether the stored value `v` equals the query literal `lit`: a null
/// matches the word `null` in any ASCII case, an integer matches when the
/// literal is that integer, a float matches when the literal, read to the
/// nearest IEEE-754 double as parsing it to a float does, is the stored
/// value, and text matches on character equality.  `None` when the
/// comparison cannot be decided: a blob, or a literal outside what the
/// value's type compares against.
pub open spec fn val_eq_lit(v: ValM, lit: Seq<char>) -> Option<bool> {
    match v {
        ValM::Null => Some(eq_ignore_case(lit, "null"@)),
        ValM::Int(x) => match parse_i64_spec(lit) {
            None => None,
            Some(y) => Some(x == y),
        },
        ValM::Float(bits) => float_eq_lit(bits, lit),
        ValM::Text(s) => Some(s == lit),
        ValM::Blob(_) => None,
    }
}

/// Whether the stored value `v` is at least the query literal `lit` in
/// the order index trees use: nulls sort below everything, numbers
/// compare numerically (a float against the literal's nearest double),
/// text compares by character code.  `None` when the comparison cannot be
/// decided.
pub open spec fn val_ge_lit(v: ValM, lit: Seq<char>) -> Option<bool> {
    match v {
        ValM::Null => Some(false),
        ValM::Int(x) => match parse_i64_spec(lit) {
            None => None,
            Some(y) => Some(x >= y),
        },
        ValM::Float(bits) => float_ge_lit(bits, lit),
        ValM::Text(s) => Some(lex_ge(s, lit)),
        ValM::Blob(_) => None,
    }
}

/// Whether `serial_value` equals the literal `comparison_value`.  Fails
/// on a blob, whose comparison is unimplemented, and on a literal the
/// value's type cannot be compared against.
pub fn check_equality(serial_value: &SerialValue, comparison_value: &String) -> (r: Result<
    bool,
    Error,
>)
    ensures
        match r {
            Ok(b) => val_eq_lit(serial_value@, comparison_value@) == Some(b),
            Err(e) => {
                &&& val_eq_lit(serial_value@, comparison_value@) is None
                &&& e == (if serial_value@ is Blob {
                    Error::Unimplemented
                } else {
                    Error::Syntax
                })
            },
        },
{
    let lit = string_chars(comparison_value.as_str());
    match serial_value {
        SerialValue::Null => {
            let pat = string_chars("null");
            Ok(eq_ignore_case_exec(&lit, &pat))
        },
        SerialValue::Int(val) => match parse_i64(&lit) {
            Some(y) => Ok(*val == y),
            None => Err(Error::Syntax),
        },
        SerialValue::Float(bits) => match float_eq(*bits, &lit) {
            Some(b) => Ok(b),
            None => Err(Error::Syntax),
        },
        SerialValue::Text(val) => Ok(*val == *comparison_value),
        SerialValue::Blob(_) => Err(Error::Unimplemented),
    }
}

/// Whether `serial_value` is at least the literal `comparison_value` in
/// the index ordering.  Fails on a blob and on a literal the value's type
/// cannot be compared against.
pub fn greater_than(serial_value: &SerialValue, comparison_value: &String) -> (r: Result<
    bool,
    Error,
>)
    ensures
        match r {
            Ok(b) => val_ge_lit(serial_value@, comparison_value@) == Some(b),
            Err(e) => {
                &&& val_ge_lit(serial_value@, comparison_value@) is None
                &&& e == (if serial_value@ is Blob {
                    Error::Unimplemented
                } else {
                    Error::Syntax
                })
            },
        },
{
    let lit = string_chars(comparison_value.as_str());
    match serial_value {
        SerialValue::Null => Ok(false),
        SerialValue::Int(val) => match parse_i64(&lit) {
            Some(y) => Ok(*val >= y),
            None => Err(Error::Syntax),
        },
        SerialValue::Float(bits) => match float_ge(*bits, &lit) {
            Some(b) => Ok(b),
            None => Err(Error::Syntax),
        },
        SerialValue::Text(val) => {
            let vc = string_chars(val.as_str());
            Ok(lex_ge_exec(&vc, &lit))
        },
        SerialValue::Blob(_) => Err(Error::Unimplemented),
    }
}

/// Whether the record's value at column `idx` equals the literal: a
/// missing column or an undecidable comparison excludes the row.
pub open spec fn record_matches_spec(r: RecordM, idx: int, lit: Seq<char>) -> bool {
    if 0 <= idx < r.values.len() {
        match val_eq_lit(r.values[idx], lit) {
            Some(b) => b,
            None => false,
        }
    } else {
        false
    }
}

/// Whether the record's value at column `idx` equals the literal `value`.
pub fn record_matches(rec: &Record, idx: usize, value: &String) -> (r: bool)
    ensures
        r == record_matches_spec(rec@, idx as int, value@),
{
    if idx >= rec.values.len() {
        return false;
    }
    proof {
        assert(rec@.values[idx as int] == rec.values@[idx as int]@);
    }
    match check_equality(&rec.values[idx], value) {
        Ok(b) => b,
        Err(_) => false,
    }
}

/// The records whose value at column `idx` equals the literal, in order.
pub open spec fn filter_records_spec(rs: Seq<RecordM>, idx: int, lit: Seq<char>) -> Seq<RecordM> {
    rs.filter(|r: RecordM| record_matches_spec(r, idx, lit))
}

/// A copy of `v` with the same view.
pub fn dup_value(v: &SerialValue) -> (r: SerialValue)
    ensures
        r@ == v@,
{
    match v {
        SerialValue::Null => SerialValue::Null,
        SerialValue::Int(x) => SerialValue::Int(*x),
        SerialValue::Float(x) => SerialValue::Float(*x),
        SerialValue::Text(s) => SerialValue::Text(s.clone()),
        SerialValue::Blob(b) => SerialValue::Blob(b.clone()),
    }
}

/// A copy of `rec` with the same view.
pub fn dup_record(rec: &Record) -> (r: Record)
    ensures
        r@ == rec@,
{
    let n = rec.values.len();
    let mut values: Vec<SerialValue> = Vec::new();
    let mut i: usize = 0;
    while i < n
        invariant
            i <= n,
            n == rec.values@.len(),
            values@.len() == i,
            forall|j: int| 0 <= j < i ==> values@[j]@ == rec.values@[j]@,
        decreases n - i,
    {
        values.push(dup_value(&rec.values[i]));
        i = i + 1;
    }
    let header = RecordHeader {
        size: rec.header.size,
        column_types: rec.header.column_types.clone(),
    };
    let out = Record { header, values };
    proof {
        assert(out@.values =~= rec@.values);
        assert(out@.header.column_types =~= rec@.header.column_types);
    }
    out
}

/// The records of `items` whose column named by `comparison` equals the
/// literal.  Fails exactly when the named column is not among
/// `ordered_column_names`.
pub fn filter_items(
    items: &Vec<Record>,
    ordered_column_names: &Vec<String>,
    comparison: &Comparison,
) -> (r: Result<Vec<Record>, Error>)
    ensures
        match r {
            Ok(out) => {
                &&& find_col_idx(ordered_column_names.deep_view(), comparison@.column) matches Some(
                    idx,
                ) && out.deep_view() == filter_records_spec(
                    items.deep_view(),
                    idx,
                    comparison@.value,
                )
            },
            Err(e) => find_col_idx(ordered_column_names.deep_view(), comparison@.column) is None
                && e == Error::Schema,
        },
{
    let idx = match crate::column::find_column_index(
        ordered_column_names,
        comparison.column.as_str(),
    ) {
        Ok(i) => i,
        Err(e) => {
            return Err(e);
        },
    };
    let ghost pred = |r: RecordM| record_matches_spec(r, idx as int, comparison@.value);
    let n = items.len();
    let mut out: Vec<Record> = Vec::new();
    let mut i: usize = 0;
    proof {
        reveal(Seq::filter);
        assert(items.deep_view().take(0) =~= Seq::<RecordM>::empty());
        assert(out.deep_view() =~= Seq::<RecordM>::empty().filter(pred));
    }
    while i < n
        invariant
            i <= n,
            n == items@.len(),
            items.deep_view().len() == n,
            forall|j: int| 0 <= j < n ==> items.deep_view()[j] == items@[j]@,
            pred == (|r: RecordM| record_matches_spec(r, idx as int, comparison@.value)),
            out.deep_view() == items.deep_view().take(i as int).filter(pred),
        decreases n - i,
    {
        let keep = record_matches(&items[i], idx, &comparison.value);
        let ghost prev = out.deep_view();
        let ghost taken = items.deep_view().take(i + 1);
        proof {
            reveal(Seq::filter);
            assert(taken.drop_last() =~= items.deep_view().take(i as int));
            assert(taken.last() == items.deep_view()[i as int]);
        }
        if keep {
            let copy = dup_record(&items[i]);
            out.push(copy);
            proof {
                assert(out.deep_view() =~= prev.push(items.deep_view()[i as int]));
            }
        }
        i = i + 1;
    }
    proof {
        assert(items.deep_view().take(n as int) =~= items.deep_view());
    }
    Ok(out)
}

/// Keep only the records whose column named by `comparison` equals the
/// literal.  Fails exactly when the named column is not among
/// `ordered_column_names`; rows whose comparison cannot be decided are
/// removed.
pub fn apply_comparison(
    records: &mut Vec<Record>,
    ordered_column_names: Vec<String>,
    comparison: Comparison,
) -> (r: Result<(), Error>)
    ensures
        match r {
            Ok(()) => {
                &&& find_col_idx(ordered_column_names.deep_view(), comparison@.column) matches Some(
                    idx,
                ) && final(records).deep_view() == filter_records_spec(
                    old(records).deep_view(),
                    idx,
                    comparison@.value,
                )
            },
            Err(e) => {
                &&& find_col_idx(ordered_column_names.deep_view(), comparison@.column) is None
                &&& e == Error::Schema
                &&& final(records).deep_view() == old(records).deep_view()
            },
        },
{
    match filter_items(records, &ordered_column_names, &comparison) {
        Ok(out) => {
            *records = out;
            Ok(())
        },
        Err(e) => Err(e),
    }
}

/// Append `idx` to `vec` unless it is already present; insertion order is
/// kept.
pub fn insert_unique(vec: &mut Vec<usize>, idx: &usize)
    ensures
        final(vec)@ == (if old(vec)@.contains(*idx) {
            old(vec)@
        } else {
            old(vec)@.push(*idx)
        }),
{
    let n = vec.len();
    let mut i: usize = 0;
    while i < n
        invariant
            i <= n,
            n == vec@.len(),
            forall|j: int| 0 <= j < i ==> vec@[j] != *idx,
        decreases n - i,
    {
        if vec[i] == *idx {
            proof {
                assert(old(vec)@[i as int] == *idx);
                assert(old(vec)@.contains(*idx));
            }
            return ;
        }
        i = i + 1;
    }
    proof {
        assert(!old(vec)@.contains(*idx));
    }
    vec.push(*idx);
}

} // verus!
