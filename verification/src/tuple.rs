//! Tuples: typed rows serialised into a page's data area. An integer column
//! is four big-endian bytes; a text column is its byte length as a
//! big-endian `u16` followed by the bytes themselves. Column types are named
//! by case-insensitive strings.

use vstd::prelude::*;

verus! {

use crate::page::spec_u16_from_be;
use crate::util::type_converter::{int_to_bytes, spec_bytes_to_int, spec_int_to_bytes};
use vstd::string::StringSliceAdditionalSpecFns;

/// One column value: an integer, or text held as its raw bytes.
#[derive(Debug, Clone)]
pub enum TupleValue {
    Integer(i32),
    Varchar(Vec<u8>),
}

/// A row: the column type names it was read or written under, and its
/// values.
#[derive(Debug)]
pub struct Tuple<'a> {
    pub types: &'a [&'a str],
    pub values: Vec<TupleValue>,
}

pub type VarcharLength = u16;

#[derive(Debug)]
pub enum TypeConversionError {
    IntConversionError,
}

#[derive(Debug)]
pub enum TupleToDataError {
    TypeConversionError(TypeConversionError),
}

/// ASCII-lowercases one byte.
pub open spec fn spec_ascii_lower(b: u8) -> u8 {
    if 65 <= b <= 90 {
        (b + 32) as u8
    } else {
        b
    }
}

/// Byte-wise ASCII case-insensitive equality.
pub open spec fn spec_eq_ignore_case(a: Seq<u8>, b: Seq<u8>) -> bool {
    a.len() == b.len() && forall|i: int|
        0 <= i < a.len() ==> spec_ascii_lower(#[trigger] a[i]) == spec_ascii_lower(b[i])
}

/// Whether `t` names the integer column type.
pub open spec fn is_integer_type(t: &str) -> bool {
    spec_eq_ignore_case(t.spec_bytes(), "integer".spec_bytes())
}

/// Whether `t` names the text column type.
pub open spec fn is_varchar_type(t: &str) -> bool {
    spec_eq_ignore_case(t.spec_bytes(), "varchar".spec_bytes())
}

/// The bytes one column value serialises to.
pub open spec fn spec_value_bytes(v: TupleValue) -> Seq<u8> {
    match v {
        TupleValue::Integer(i) => spec_int_to_bytes(i),
        TupleValue::Varchar(bytes) => seq![
            (bytes@.len() as int / 256) as u8,
            (bytes@.len() as int % 256) as u8,
        ] + bytes@,
    }
}

/// Whether every text value fits its two-byte length prefix.
pub open spec fn spec_values_valid(values: Seq<TupleValue>) -> bool {
    forall|i: int|
        0 <= i < values.len() ==> ((#[trigger] values[i]) matches TupleValue::Varchar(bytes)
            ==> bytes@.len() <= VarcharLength::MAX)
}

/// The bytes a whole row serialises to: its values' bytes, in order.
pub open spec fn spec_tuple_bytes(values: Seq<TupleValue>) -> Seq<u8>
    decreases values.len(),
{
    if values.len() == 0 {
        Seq::empty()
    } else {
        spec_value_bytes(values[0]) + spec_tuple_bytes(values.drop_first())
    }
}

/// Whether the column values named by `types` can be parsed out of `data`
/// from `offset` on: every type name is known and the data holds every
/// value in full.
pub open spec fn spec_parse_ok(types: Seq<&str>, data: Seq<u8>, offset: int) -> bool
    decreases types.len(),
{
    if types.len() == 0 {
        true
    } else {
        let t = types[0];
        if is_integer_type(t) {
            offset + 4 <= data.len() && spec_parse_ok(types.drop_first(), data, offset + 4)
        } else if is_varchar_type(t) {
            offset + 2 <= data.len() && offset + 2 + spec_u16_from_be(
                data[offset],
                data[offset + 1],
            ) <= data.len() && spec_parse_ok(
                types.drop_first(),
                data,
                offset + 2 + spec_u16_from_be(data[offset], data[offset + 1]),
            )
        } else {
            false
        }
    }
}

/// Whether `values` are exactly the column values that parsing `types` out
/// of `data` from `offset` on yields.
pub open spec fn spec_parsed_values(
    values: Seq<TupleValue>,
    types: Seq<&str>,
    data: Seq<u8>,
    offset: int,
) -> bool
    decreases types.len(),
{
    if types.len() == 0 {
        values.len() == 0
    } else {
        let t = types[0];
        values.len() == types.len() && if is_integer_type(t) {
            offset + 4 <= data.len() && values[0] == TupleValue::Integer(
                spec_bytes_to_int(data.subrange(offset, offset + 4)),
            ) && spec_parsed_values(values.drop_first(), types.drop_first(), data, offset + 4)
        } else if is_varchar_type(t) {
            let len = spec_u16_from_be(data[offset], data[offset + 1]);
            offset + 2 + len <= data.len() && (values[0] matches TupleValue::Varchar(bytes)
                && bytes@ == data.subrange(offset + 2, offset + 2 + len)) && spec_parsed_values(
                values.drop_first(),
                types.drop_first(),
                data,
                offset + 2 + len,
            )
        } else {
            false
        }
    }
}

/// Compares two byte strings ASCII case-insensitively.
fn eq_ignore_ascii_case_bytes(a: &[u8], b: &[u8]) -> (r: bool)
    ensures
        r == spec_eq_ignore_case(a@, b@),
{
    if a.len() != b.len() {
        return false;
    }
    let n = a.len();
    let mut i: usize = 0;
    while i < n
        invariant
            i <= n,
            n == a@.len(),
            a@.len() == b@.len(),
            forall|j: int| 0 <= j < i ==> spec_ascii_lower(#[trigger] a@[j]) == spec_ascii_lower(
                b@[j],
            ),
        decreases n - i,
    {
        let x = a[i];
        let y = b[i];
        let xl = if 65 <= x && x <= 90 {
            x + 32
        } else {
            x
        };
        let yl = if 65 <= y && y <= 90 {
            y + 32
        } else {
            y
        };
        if xl != yl {
            return false;
        }
        i += 1;
    }
    true
}

impl<'a> Tuple<'a> {
    /// Parses a row of `types` out of `data`, two-byte length prefixes and
    /// all, exactly as `spec_parsed_values` describes it.
    pub fn read(types: &'a [&str], data: &[u8]) -> (r: Tuple<'a>)
        requires
            spec_parse_ok(types@, data@, 0),
        ensures
            r.types == types,
            spec_parsed_values(r.values@, types@, data@, 0),
    {
        let mut current_offset: usize = 0;
        let mut values: Vec<TupleValue> = Vec::new();

        let dlen = data.len();
        let n = types.len();
        proof {
            assert(types@.skip(0) =~= types@);
            assert forall|vs: Seq<TupleValue>|
                spec_parsed_values(vs, types@.skip(0), data@, 0) implies
                #[trigger] spec_parsed_values(values@ + vs, types@, data@, 0) by {
                assert(values@ + vs =~= vs);
            }
        }
        let mut i: usize = 0;
        while i < n
            invariant
                i <= n,
                n == types@.len(),
                dlen == data@.len(),
                current_offset <= data@.len(),
                spec_parse_ok(types@.skip(i as int), data@, current_offset as int),
                forall|vs: Seq<TupleValue>|
                    spec_parsed_values(
                        vs,
                        types@.skip(i as int),
                        data@,
                        current_offset as int,
                    ) ==> #[trigger] spec_parsed_values(values@ + vs, types@, data@, 0),
            decreases n - i,
        {
            let t = types[i];
            proof {
                assert(types@.skip(i as int)[0] == types@[i as int]);
            }
            let value = if eq_ignore_ascii_case_bytes(t.as_bytes(), "integer".as_bytes()) {
                let bytes: [u8; 4] = [
                    data[current_offset],
                    data[current_offset + 1],
                    data[current_offset + 2],
                    data[current_offset + 3],
                ];
                proof {
                    assert(bytes@ =~= data@.subrange(
                        current_offset as int,
                        current_offset as int + 4,
                    ));
                }
                current_offset = current_offset + 4;
                TupleValue::Integer(crate::util::type_converter::bytes_to_int(&bytes))
            } else {
                proof {
                    assert(is_varchar_type(types@[i as int]));
                }
                let string_length = ((data[current_offset] as u16) * 256 + (data[current_offset
                    + 1] as u16)) as usize;
                let mut bytes: Vec<u8> = Vec::new();
                let start = current_offset + 2;
                proof {
                    assert(start + string_length <= data@.len());
                }
                let mut j: usize = 0;
                while j < string_length
                    invariant
                        j <= string_length,
                        dlen == data@.len(),
                        start + string_length <= data@.len(),
                        bytes@.len() == j,
                        forall|q: int| 0 <= q < j ==> bytes@[q] == data@[start + q],
                    decreases string_length - j,
                {
                    bytes.push(data[start + j]);
                    j += 1;
                }
                proof {
                    assert(bytes@ =~= data@.subrange(
                        start as int,
                        start as int + string_length as int,
                    ));
                }
                current_offset = start + string_length;
                TupleValue::Varchar(bytes)
            };

            let ghost prev_values = values@;
            values.push(value);
            proof {
                assert(types@.skip(i as int).drop_first() =~= types@.skip(i as int + 1));
                assert forall|vs: Seq<TupleValue>|
                    spec_parsed_values(
                        vs,
                        types@.skip(i as int + 1),
                        data@,
                        current_offset as int,
                    ) implies #[trigger] spec_parsed_values(values@ + vs, types@, data@, 0) by {
                    assert(spec_parsed_values(
                        seq![value] + vs,
                        types@.skip(i as int),
                        data@,
                        (current_offset as int) - step_len(value),
                    )) by {
                        assert((seq![value] + vs).drop_first() =~= vs);
                    }
                    assert(prev_values + (seq![value] + vs) =~= values@ + vs);
                }
            }
            i += 1;
        }
        proof {
            assert(types@.skip(n as int).len() == 0);
            assert(spec_parsed_values(Seq::<TupleValue>::empty(), types@.skip(n as int), data@,
                current_offset as int));
            assert(values@ + Seq::<TupleValue>::empty() =~= values@);
        }

        Tuple { types, values }
    }

    /// Serialises the row's values in order. Fails exactly when some text
    /// value is too long for its length prefix; nothing of the row is
    /// consumed either way.
    pub fn to_data(&self) -> (r: Result<Vec<u8>, TupleToDataError>)
        ensures
            match r {
                Ok(d) => spec_values_valid(self.values@) && d@ == spec_tuple_bytes(self.values@),
                Err(_) => !spec_values_valid(self.values@),
            },
    {
        let mut new_tuple: Vec<u8> = Vec::new();
        let n = self.values.len();
        let mut i: usize = 0;
        while i < n
            invariant
                i <= n,
                n == self.values@.len(),
                spec_values_valid(self.values@.take(i as int)),
                new_tuple@ == spec_tuple_bytes(self.values@.take(i as int)),
            decreases n - i,
        {
            let ghost prefix = self.values@.take(i as int);
            match &self.values[i] {
                TupleValue::Integer(value) => {
                    let bytes = int_to_bytes(value);
                    new_tuple.push(bytes[0]);
                    new_tuple.push(bytes[1]);
                    new_tuple.push(bytes[2]);
                    new_tuple.push(bytes[3]);
                },
                TupleValue::Varchar(string_bytes) => {
                    if string_bytes.len() > VarcharLength::MAX as usize {
                        proof {
                            assert(!spec_values_valid(self.values@)) by {
                                assert(self.values@[i as int] matches TupleValue::Varchar(b)
                                    && b@.len() > VarcharLength::MAX);
                            }
                        }
                        return Err(
                            TupleToDataError::TypeConversionError(
                                TypeConversionError::IntConversionError,
                            ),
                        );
                    }
                    let len = string_bytes.len() as u16;
                    new_tuple.push((len / 256) as u8);
                    new_tuple.push((len % 256) as u8);
                    let m = string_bytes.len();
                    let mut j: usize = 0;
                    while j < m
                        invariant
                            j <= m,
                            m == string_bytes@.len(),
                            new_tuple@ == spec_tuple_bytes(prefix) + seq![
                                (string_bytes@.len() as int / 256) as u8,
                                (string_bytes@.len() as int % 256) as u8,
                            ] + string_bytes@.take(j as int),
                        decreases m - j,
                    {
                        let b = string_bytes[j];
                        new_tuple.push(b);
                        proof {
                            assert(string_bytes@.take(j as int).push(b) =~= string_bytes@.take(
                                j as int + 1,
                            ));
                            assert((spec_tuple_bytes(prefix) + seq![
                                (string_bytes@.len() as int / 256) as u8,
                                (string_bytes@.len() as int % 256) as u8,
                            ] + string_bytes@.take(j as int)).push(b) =~= spec_tuple_bytes(prefix)
                                + seq![
                                (string_bytes@.len() as int / 256) as u8,
                                (string_bytes@.len() as int % 256) as u8,
                            ] + string_bytes@.take(j as int + 1));
                        }
                        j += 1;
                    }
                },
            }
            proof {
                let v = self.values@[i as int];
                assert(self.values@.take(i as int + 1) =~= prefix.push(v));
                lemma_tuple_bytes_push(prefix, v);
                match v {
                    TupleValue::Integer(value) => {
                        assert(new_tuple@ =~= spec_tuple_bytes(prefix) + spec_value_bytes(v));
                    },
                    TupleValue::Varchar(string_bytes) => {
                        assert(string_bytes@.take(string_bytes@.len() as int) =~= string_bytes@);
                        assert(new_tuple@ =~= spec_tuple_bytes(prefix) + spec_value_bytes(v));
                    },
                }
            }
            i += 1;
        }
        proof {
            assert(self.values@.take(n as int) =~= self.values@);
        }
        Ok(new_tuple)
    }
}

/// How many bytes one parsed value took out of the data.
pub open spec fn step_len(v: TupleValue) -> int {
    match v {
        TupleValue::Integer(_) => 4,
        TupleValue::Varchar(bytes) => 2 + bytes@.len() as int,
    }
}

/// Appending one value appends its bytes to the row's serialisation.
pub proof fn lemma_tuple_bytes_push(values: Seq<TupleValue>, v: TupleValue)
    ensures
        spec_tuple_bytes(values.push(v)) == spec_tuple_bytes(values) + spec_value_bytes(v),
    decreases values.len(),
{
    if values.len() == 0 {
        assert(values.push(v).drop_first() =~= Seq::<TupleValue>::empty());
        assert(values.push(v)[0] == v);
        assert(spec_tuple_bytes(values.push(v)) == spec_value_bytes(v) + spec_tuple_bytes(
            Seq::<TupleValue>::empty(),
        ));
        assert(spec_value_bytes(v) + Seq::<u8>::empty() =~= spec_value_bytes(v));
        assert(Seq::<u8>::empty() + spec_value_bytes(v) =~= spec_value_bytes(v));
    } else {
        lemma_tuple_bytes_push(values.drop_first(), v);
        assert(values.push(v).drop_first() =~= values.drop_first().push(v));
        assert(values.push(v)[0] == values[0]);
        assert(spec_tuple_bytes(values.push(v)) =~= spec_tuple_bytes(values) + spec_value_bytes(
            v,
        ));
    }
}

/// What equality of two column values means: same variant, same contents.
pub open spec fn spec_value_eq(a: TupleValue, b: TupleValue) -> bool {
    match (a, b) {
        (TupleValue::Integer(l0), TupleValue::Integer(r0)) => l0 == r0,
        (TupleValue::Varchar(l0), TupleValue::Varchar(r0)) => l0@ == r0@,
        _ => false,
    }
}

impl PartialEq for TupleValue {
    fn eq(&self, other: &Self) -> (r: bool) {
        match (self, other) {
            (TupleValue::Integer(l0), TupleValue::Integer(r0)) => *l0 == *r0,
            (TupleValue::Varchar(l0), TupleValue::Varchar(r0)) => bytes_equal(l0, r0),
            _ => false,
        }
    }
}

impl vstd::std_specs::cmp::PartialEqSpecImpl for TupleValue {
    open spec fn obeys_eq_spec() -> bool {
        true
    }

    open spec fn eq_spec(&self, other: &TupleValue) -> bool {
        spec_value_eq(*self, *other)
    }
}

/// What equality of two rows means: the same type names, byte for byte, and
/// equal values.
pub open spec fn spec_tuple_eq(a: Tuple, b: Tuple) -> bool {
    &&& a.types@.len() == b.types@.len()
    &&& forall|i: int|
        0 <= i < a.types@.len() ==> (#[trigger] a.types@[i]).spec_bytes()
            == b.types@[i].spec_bytes()
    &&& a.values@.len() == b.values@.len()
    &&& forall|i: int|
        0 <= i < a.values@.len() ==> spec_value_eq(#[trigger] a.values@[i], b.values@[i])
}

impl<'a> PartialEq for Tuple<'a> {
    fn eq(&self, other: &Self) -> (r: bool) {
        if self.types.len() != other.types.len() {
            return false;
        }
        let n = self.types.len();
        let mut i: usize = 0;
        while i < n
            invariant
                i <= n,
                n == self.types@.len(),
                self.types@.len() == other.types@.len(),
                forall|j: int|
                    0 <= j < i ==> (#[trigger] self.types@[j]).spec_bytes()
                        == other.types@[j].spec_bytes(),
            decreases n - i,
        {
            if !slices_equal(self.types[i].as_bytes(), other.types[i].as_bytes()) {
                return false;
            }
            i += 1;
        }
        let m = self.values.len();
        if m != other.values.len() {
            return false;
        }
        let mut j: usize = 0;
        while j < m
            invariant
                j <= m,
                m == self.values@.len(),
                self.values@.len() == other.values@.len(),
                self.types@.len() == other.types@.len(),
                forall|q: int|
                    0 <= q < self.types@.len() ==> (#[trigger] self.types@[q]).spec_bytes()
                        == other.types@[q].spec_bytes(),
                forall|q: int|
                    0 <= q < j ==> spec_value_eq(#[trigger] self.values@[q], other.values@[q]),
            decreases m - j,
        {
            let same = match (&self.values[j], &other.values[j]) {
                (TupleValue::Integer(l0), TupleValue::Integer(r0)) => *l0 == *r0,
                (TupleValue::Varchar(l0), TupleValue::Varchar(r0)) => bytes_equal(l0, r0),
                _ => false,
            };
            if !same {
                return false;
            }
            j += 1;
        }
        true
    }
}

impl<'a> vstd::std_specs::cmp::PartialEqSpecImpl for Tuple<'a> {
    open spec fn obeys_eq_spec() -> bool {
        true
    }

    open spec fn eq_spec(&self, other: &Tuple<'a>) -> bool {
        spec_tuple_eq(*self, *other)
    }
}

/// Plain byte-slice equality.
fn slices_equal(a: &[u8], b: &[u8]) -> (r: bool)
    ensures
        r == (a@ == b@),
{
    if a.len() != b.len() {
        proof {
            assert(a@ != b@);
        }
        return false;
    }
    let n = a.len();
    let mut i: usize = 0;
    while i < n
        invariant
            i <= n,
            n == a@.len(),
            a@.len() == b@.len(),
            forall|j: int| 0 <= j < i ==> a@[j] == b@[j],
        decreases n - i,
    {
        if a[i] != b[i] {
            return false;
        }
        i += 1;
    }
    proof {
        assert(a@ =~= b@);
    }
    true
}

/// Plain byte-string equality.
fn bytes_equal(a: &Vec<u8>, b: &Vec<u8>) -> (r: bool)
    ensures
        r == (a@ == b@),
{
    if a.len() != b.len() {
        proof {
            assert(a@ != b@);
        }
        return false;
    }
    let n = a.len();
    let mut i: usize = 0;
    while i < n
        invariant
            i <= n,
            n == a@.len(),
            a@.len() == b@.len(),
            forall|j: int| 0 <= j < i ==> a@[j] == b@[j],
        decreases n - i,
    {
        if a[i] != b[i] {
            return false;
        }
        i += 1;
    }
    proof {
        assert(a@ =~= b@);
    }
    true
}

} // verus!
