//! Scalar values, rows of values, and the total order used to keep sets of
//! literal rows sorted and free of duplicates.

use vstd::prelude::*;

verus! {

/// The integer types a value can have.
#[derive(Clone, Copy, PartialEq, Eq, Structural, Debug)]
pub enum IntType {
    Int16,
    Int32,
    Int64,
}

/// A typed scalar value. `Null` is the SQL null, which belongs to every type.
#[derive(Clone, Copy, PartialEq, Eq, Structural, Debug)]
pub enum Value {
    Null,
    Bool(bool),
    Int16(i16),
    Int32(i32),
    Int64(i64),
}

/// Whether the integer `x` can be represented in the integer type `ty`.
pub open spec fn int_fits(ty: IntType, x: int) -> bool {
    match ty {
        IntType::Int16 => -0x8000 <= x <= 0x7fff,
        IntType::Int32 => -0x8000_0000 <= x <= 0x7fff_ffff,
        IntType::Int64 => -0x8000_0000_0000_0000 <= x <= 0x7fff_ffff_ffff_ffff,
    }
}

/// The value of type `ty` that holds the integer `x`.
pub open spec fn int_value(ty: IntType, x: int) -> Value
    recommends
        int_fits(ty, x),
{
    match ty {
        IntType::Int16 => Value::Int16(x as i16),
        IntType::Int32 => Value::Int32(x as i32),
        IntType::Int64 => Value::Int64(x as i64),
    }
}

impl Value {
    /// The integer type of the value, if it is an integer.
    pub open spec fn int_type(self) -> Option<IntType> {
        match self {
            Value::Int16(_) => Some(IntType::Int16),
            Value::Int32(_) => Some(IntType::Int32),
            Value::Int64(_) => Some(IntType::Int64),
            _ => None,
        }
    }

    /// The integer a value holds; `false` and `true` count as 0 and 1, and
    /// `Null` as 0.
    pub open spec fn payload(self) -> int {
        match self {
            Value::Null => 0,
            Value::Bool(b) => if b { 1 } else { 0 },
            Value::Int16(x) => x as int,
            Value::Int32(x) => x as int,
            Value::Int64(x) => x as int,
        }
    }

    /// The position of the value's type in the order of types.
    pub open spec fn rank(self) -> int {
        match self {
            Value::Null => 0,
            Value::Bool(_) => 1,
            Value::Int16(_) => 2,
            Value::Int32(_) => 3,
            Value::Int64(_) => 4,
        }
    }

    /// The strict total order on values: first by type, then by payload.
    pub open spec fn lt(self, other: Value) -> bool {
        self.rank() < other.rank() || (self.rank() == other.rank() && self.payload()
            < other.payload())
    }

    pub fn is_null(&self) -> (r: bool)
        ensures
            r == (*self == Value::Null),
    {
        match self {
            Value::Null => true,
            _ => false,
        }
    }

    /// Whether the two values are of the same type.
    pub fn same_type(&self, other: &Value) -> (r: bool)
        ensures
            r == (self.rank() == other.rank()),
    {
        self.rank_of() == other.rank_of()
    }

    /// The integer held by an integer value, widened to 64 bits, with its type.
    pub fn as_int(&self) -> (r: Option<(IntType, i64)>)
        ensures
            match r {
                Some((ty, x)) => self.int_type() == Some(ty) && x == self.payload(),
                None => self.int_type().is_none(),
            },
    {
        match self {
            Value::Int16(x) => Some((IntType::Int16, *x as i64)),
            Value::Int32(x) => Some((IntType::Int32, *x as i64)),
            Value::Int64(x) => Some((IntType::Int64, *x)),
            _ => None,
        }
    }

    /// The value of type `ty` that holds `x`, if `x` fits in `ty`.
    pub fn from_int(ty: IntType, x: i64) -> (r: Option<Value>)
        ensures
            r == if int_fits(ty, x as int) {
                Some(int_value(ty, x as int))
            } else {
                None
            },
    {
        match ty {
            IntType::Int16 => {
                if -0x8000 <= x && x <= 0x7fff {
                    Some(Value::Int16(x as i16))
                } else {
                    None
                }
            },
            IntType::Int32 => {
                if -0x8000_0000 <= x && x <= 0x7fff_ffff {
                    Some(Value::Int32(x as i32))
                } else {
                    None
                }
            },
            IntType::Int64 => Some(Value::Int64(x)),
        }
    }

    fn rank_of(&self) -> (r: u8)
        ensures
            r == self.rank(),
    {
        match self {
            Value::Null => 0,
            Value::Bool(_) => 1,
            Value::Int16(_) => 2,
            Value::Int32(_) => 3,
            Value::Int64(_) => 4,
        }
    }

    fn payload_of(&self) -> (r: i64)
        ensures
            r == self.payload(),
    {
        match self {
            Value::Null => 0,
            Value::Bool(b) => if *b { 1 } else { 0 },
            Value::Int16(x) => *x as i64,
            Value::Int32(x) => *x as i64,
            Value::Int64(x) => *x,
        }
    }

    /// Whether `self` comes strictly before `other` in the order on values.
    pub fn less_than(&self, other: &Value) -> (r: bool)
        ensures
            r == self.lt(*other),
    {
        let ra: u8 = self.rank_of();
        let rb: u8 = other.rank_of();
        ra < rb || (ra == rb && self.payload_of() < other.payload_of())
    }
}

/// Two values are equal exactly when neither comes before the other.
pub proof fn lemma_value_order_total(a: Value, b: Value)
    ensures
        a == b <==> (!a.lt(b) && !b.lt(a)),
        !(a.lt(b) && b.lt(a)),
{
}

/// The order on values is transitive.
pub proof fn lemma_value_order_transitive(a: Value, b: Value, c: Value)
    requires
        a.lt(b),
        b.lt(c),
    ensures
        a.lt(c),
{
}

/// The strict lexicographic order on rows. A proper prefix comes before
/// every row it is a prefix of.
pub open spec fn row_lt(a: Seq<Value>, b: Seq<Value>) -> bool
    decreases a.len(),
{
    if b.len() == 0 {
        false
    } else if a.len() == 0 {
        true
    } else if a[0] == b[0] {
        row_lt(a.skip(1), b.skip(1))
    } else {
        a[0].lt(b[0])
    }
}

/// No row comes before itself.
pub proof fn lemma_row_order_irreflexive(a: Seq<Value>)
    ensures
        !row_lt(a, a),
    decreases a.len(),
{
    if a.len() > 0 {
        lemma_row_order_irreflexive(a.skip(1));
    }
}

/// Of two different rows, exactly one comes before the other.
pub proof fn lemma_row_order_total(a: Seq<Value>, b: Seq<Value>)
    ensures
        a == b <==> (!row_lt(a, b) && !row_lt(b, a)),
        !(row_lt(a, b) && row_lt(b, a)),
    decreases a.len(),
{
    if a.len() == 0 || b.len() == 0 {
        if a.len() == 0 && b.len() == 0 {
            assert(a =~= b);
        }
    } else if a[0] == b[0] {
        lemma_row_order_total(a.skip(1), b.skip(1));
        if a.skip(1) == b.skip(1) {
            assert(a =~= seq![a[0]] + a.skip(1));
            assert(b =~= seq![b[0]] + b.skip(1));
        }
    } else {
        lemma_value_order_total(a[0], b[0]);
    }
}

/// The order on rows is transitive.
pub proof fn lemma_row_order_transitive(a: Seq<Value>, b: Seq<Value>, c: Seq<Value>)
    requires
        row_lt(a, b),
        row_lt(b, c),
    ensures
        row_lt(a, c),
    decreases a.len(),
{
    if a.len() > 0 {
        if a[0] == b[0] && b[0] == c[0] {
            lemma_row_order_transitive(a.skip(1), b.skip(1), c.skip(1));
        } else if a[0] != b[0] && b[0] != c[0] {
            lemma_value_order_transitive(a[0], b[0], c[0]);
        }
    }
}

/// The rows of a vector of rows.
pub open spec fn rows_view(rows: Seq<Vec<Value>>) -> Seq<Seq<Value>> {
    Seq::new(rows.len(), |i: int| rows[i]@)
}

/// Each row comes strictly before the next one.
pub open spec fn strictly_sorted(rows: Seq<Seq<Value>>) -> bool {
    forall|i: int, j: int| 0 <= i < j < rows.len() ==> row_lt(#[trigger] rows[i], #[trigger] rows[j])
}

/// The two sequences hold the same rows, whatever their order and number.
pub open spec fn same_rows(a: Seq<Seq<Value>>, b: Seq<Seq<Value>>) -> bool {
    forall|r: Seq<Value>| a.contains(r) <==> b.contains(r)
}

/// Whether the two rows hold the same values.
pub fn row_equals(a: &Vec<Value>, b: &Vec<Value>) -> (r: bool)
    ensures
        r == (a@ == b@),
{
    if a.len() != b.len() {
        return false;
    }
    let mut i: usize = 0;
    while i < a.len()
        invariant
            i <= a.len(),
            a.len() == b.len(),
            forall|j: int| 0 <= j < i ==> a@[j] == b@[j],
        decreases a.len() - i,
    {
        if a[i] != b[i] {
            return false;
        }
        i += 1;
    }
    assert(a@ =~= b@);
    true
}

/// Whether row `a` comes strictly before row `b`.
pub fn row_less_than(a: &Vec<Value>, b: &Vec<Value>) -> (r: bool)
    ensures
        r == row_lt(a@, b@),
{
    let mut i: usize = 0;
    assert(a@.skip(0) =~= a@ && b@.skip(0) =~= b@);
    while i < a.len() && i < b.len()
        invariant
            i <= a.len(),
            i <= b.len(),
            row_lt(a@, b@) == row_lt(a@.skip(i as int), b@.skip(i as int)),
        decreases a.len() - i,
    {
        if a[i] != b[i] {
            return a[i].less_than(&b[i]);
        }
        assert(a@.skip(i as int).skip(1) =~= a@.skip(i as int + 1));
        assert(b@.skip(i as int).skip(1) =~= b@.skip(i as int + 1));
        i += 1;
    }
    i < b.len()
}

/// A copy of the row.
pub fn copy_row(row: &Vec<Value>) -> (r: Vec<Value>)
    ensures
        r@ == row@,
{
    let mut out: Vec<Value> = Vec::new();
    let mut i: usize = 0;
    while i < row.len()
        invariant
            i <= row.len(),
            out@ == row@.take(i as int),
        decreases row.len() - i,
    {
        out.push(row[i]);
        assert(row@.take(i as int + 1) =~= row@.take(i as int).push(row@[i as int]));
        i += 1;
    }
    assert(row@.take(row.len() as int) =~= row@);
    out
}

/// The number of rows at the front of `rows` that come before `row`.
pub open spec fn first_not_before(rows: Seq<Seq<Value>>, row: Seq<Value>) -> int
    decreases rows.len(),
{
    if rows.len() == 0 || !row_lt(rows[0], row) {
        0
    } else {
        1 + first_not_before(rows.skip(1), row)
    }
}

/// The sorted sequence `rows` with `row` put in its place, unless it is
/// there already.
pub open spec fn insert_row(rows: Seq<Seq<Value>>, row: Seq<Value>) -> Seq<Seq<Value>> {
    let k = first_not_before(rows, row);
    if k < rows.len() && rows[k] == row {
        rows
    } else {
        rows.insert(k, row)
    }
}

/// The rows in increasing order, each once.
pub open spec fn sorted_rows(rows: Seq<Seq<Value>>) -> Seq<Seq<Value>>
    decreases rows.len(),
{
    if rows.len() == 0 {
        Seq::empty()
    } else {
        insert_row(sorted_rows(rows.drop_last()), rows.last())
    }
}

/// The rows before `first_not_before` come before `row`; the row there, if
/// there is one, does not.
pub proof fn lemma_first_not_before(rows: Seq<Seq<Value>>, row: Seq<Value>)
    ensures
        0 <= first_not_before(rows, row) <= rows.len(),
        forall|j: int| 0 <= j < first_not_before(rows, row) ==> row_lt(#[trigger] rows[j], row),
        first_not_before(rows, row) < rows.len() ==> !row_lt(
            rows[first_not_before(rows, row)],
            row,
        ),
    decreases rows.len(),
{
    if rows.len() > 0 && row_lt(rows[0], row) {
        let rest = rows.skip(1);
        lemma_first_not_before(rest, row);
        assert forall|j: int| 0 <= j < first_not_before(rows, row) implies row_lt(
            #[trigger] rows[j],
            row,
        ) by {
            if j > 0 {
                assert(rows[j] == rest[j - 1]);
            }
        }
        if first_not_before(rows, row) < rows.len() {
            assert(rows[first_not_before(rows, row)] == rest[first_not_before(rest, row)]);
        }
    }
}

/// Putting a row in its place keeps a sorted sequence sorted, and adds
/// exactly that row.
pub proof fn lemma_insert_row(rows: Seq<Seq<Value>>, row: Seq<Value>)
    requires
        strictly_sorted(rows),
    ensures
        strictly_sorted(insert_row(rows, row)),
        forall|r: Seq<Value>| insert_row(rows, row).contains(r) <==> (rows.contains(r) || r == row),
{
    let k = first_not_before(rows, row);
    let after = insert_row(rows, row);
    lemma_first_not_before(rows, row);
    if k < rows.len() && rows[k] == row {
    } else {
        assert forall|a: int, b: int| 0 <= a < b < after.len() implies row_lt(
            #[trigger] after[a],
            #[trigger] after[b],
        ) by {
            if a == k {
                let next = rows[k];
                assert(rows[b - 1] == after[b]);
                lemma_row_order_total(next, row);
                if b - 1 > k {
                    assert(row_lt(rows[k], rows[b - 1]));
                    lemma_row_order_transitive(row, next, rows[b - 1]);
                }
            } else if b == k {
                assert(after[a] == rows[a]);
            } else {
                let a0 = if a < k {
                    a
                } else {
                    a - 1
                };
                let b0 = if b < k {
                    b
                } else {
                    b - 1
                };
                assert(after[a] == rows[a0]);
                assert(after[b] == rows[b0]);
            }
        }
        assert forall|r: Seq<Value>| after.contains(r) <==> (rows.contains(r) || r == row) by {
            if after.contains(r) {
                let i = choose|i: int| 0 <= i < after.len() && after[i] == r;
                if i < k {
                    assert(rows[i] == r);
                } else if i > k {
                    assert(rows[i - 1] == r);
                }
            }
            if rows.contains(r) {
                let i = choose|i: int| 0 <= i < rows.len() && rows[i] == r;
                if i < k {
                    assert(after[i] == r);
                } else {
                    assert(after[i + 1] == r);
                }
            }
            assert(after[k] == row);
        }
    }
}

/// The sorted rows are in strictly increasing order and are exactly the
/// rows that were given.
pub proof fn lemma_sorted_rows(rows: Seq<Seq<Value>>)
    ensures
        strictly_sorted(sorted_rows(rows)),
        same_rows(sorted_rows(rows), rows),
    decreases rows.len(),
{
    if rows.len() > 0 {
        let rest = rows.drop_last();
        lemma_sorted_rows(rest);
        lemma_insert_row(sorted_rows(rest), rows.last());
        let out = sorted_rows(rows);
        assert forall|r: Seq<Value>| out.contains(r) <==> rows.contains(r) by {
            if rows.contains(r) {
                let i = choose|i: int| 0 <= i < rows.len() && rows[i] == r;
                if i < rest.len() {
                    assert(rest[i] == r);
                }
            }
            if rest.contains(r) {
                let i = choose|i: int| 0 <= i < rest.len() && rest[i] == r;
                assert(rows[i] == r);
            }
            assert(rows[rows.len() - 1] == rows.last());
        }
    }
}

/// Sorts the rows and drops every row that occurs a second time.
pub fn sort_dedup_rows(rows: &Vec<Vec<Value>>) -> (out: Vec<Vec<Value>>)
    ensures
        rows_view(out@) == sorted_rows(rows_view(rows@)),
{
    let ghost all = rows_view(rows@);
    let mut out: Vec<Vec<Value>> = Vec::new();
    let mut i: usize = 0;
    assert(rows_view(out@) =~= sorted_rows(all.take(0)));
    while i < rows.len()
        invariant
            i <= rows.len(),
            all == rows_view(rows@),
            rows_view(out@) == sorted_rows(all.take(i as int)),
        decreases rows.len() - i,
    {
        let ghost before = rows_view(out@);
        let ghost row = rows@[i as int]@;
        // Find the first position whose row is not before the new one.
        let mut pos: usize = 0;
        proof {
            assert(before.skip(0) =~= before);
        }
        while pos < out.len() && row_less_than(&out[pos], &rows[i])
            invariant
                pos <= out.len(),
                i < rows.len(),
                row == rows@[i as int]@,
                before == rows_view(out@),
                first_not_before(before, row) == pos + first_not_before(
                    before.skip(pos as int),
                    row,
                ),
            decreases out.len() - pos,
        {
            assert(before.skip(pos as int).skip(1) =~= before.skip(pos as int + 1));
            assert(before.skip(pos as int)[0] == out@[pos as int]@);
            pos += 1;
        }
        proof {
            if pos < out.len() {
                assert(before.skip(pos as int)[0] == out@[pos as int]@);
            }
            assert(first_not_before(before, row) == pos);
            assert(all.take(i as int + 1).drop_last() =~= all.take(i as int));
            assert(all.take(i as int + 1).last() == row);
        }
        let present = pos < out.len() && row_equals(&out[pos], &rows[i]);
        if !present {
            let copy = copy_row(&rows[i]);
            out.insert(pos, copy);
            assert(rows_view(out@) =~= before.insert(pos as int, row));
        }
        i += 1;
    }
    assert(all.take(rows.len() as int) =~= all);
    out
}

} // verus!
