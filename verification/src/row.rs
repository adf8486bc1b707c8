//! Rows, per-column sort directions, and the logical row order.
//!
//! A row is an ordered tuple of typed values; an `OrderedRow` pairs a row with
//! the direction vector under which it is compared.

use vstd::prelude::*;

use crate::order::{lex_lt, Cmp, cmp_bytes, lemma_lex_asym, lemma_lex_total};

verus! {

/// Sort direction of one column.
#[derive(Clone, Copy, PartialEq, Eq, Structural, Debug)]
pub enum Direction {
    Ascending,
    Descending,
}

/// Column type of one datum.
#[derive(Clone, Copy, PartialEq, Eq, Structural, Debug)]
pub enum DataType {
    Int64,
    Varchar,
}

/// One typed value of a row. Variable-length values are byte strings.
#[derive(Clone, Debug, PartialEq, Eq)]
pub enum Datum {
    Null,
    Int(i64),
    Str(Vec<u8>),
}

/// The mathematical value of a datum.
pub enum DatumS {
    Null,
    Int(int),
    Str(Seq<u8>),
}

impl View for Datum {
    type V = DatumS;

    open spec fn view(&self) -> DatumS {
        match self {
            Datum::Null => DatumS::Null,
            Datum::Int(x) => DatumS::Int(*x as int),
            Datum::Str(b) => DatumS::Str(b@),
        }
    }
}

/// A row of datums.
#[derive(Clone, Debug, PartialEq, Eq)]
pub struct Row(pub Vec<Datum>);

impl View for Row {
    type V = Seq<DatumS>;

    open spec fn view(&self) -> Seq<DatumS> {
        self.0@.map(|i: int, d: Datum| d@)
    }
}

/// A row together with the direction vector it is ordered under.
#[derive(Clone, Debug, PartialEq, Eq)]
pub struct OrderedRow {
    pub row: Row,
    pub order: Vec<Direction>,
}

/// A datum fits its declared column type; integers carry the machine bounds.
pub open spec fn datum_wf(t: DataType, d: DatumS) -> bool {
    match d {
        DatumS::Null => true,
        DatumS::Int(x) => t == DataType::Int64 && i64::MIN <= x <= i64::MAX,
        DatumS::Str(_) => t == DataType::Varchar,
    }
}

/// A row conforms to a schema column by column.
pub open spec fn row_wf(schema: Seq<DataType>, r: Seq<DatumS>) -> bool {
    &&& r.len() == schema.len()
    &&& forall|i: int| 0 <= i < r.len() ==> datum_wf(schema[i], #[trigger] r[i])
}

/// Two datums can be compared: they are not of distinct non-null kinds.
pub open spec fn datum_compat(a: DatumS, b: DatumS) -> bool {
    match (a, b) {
        (DatumS::Int(_), DatumS::Str(_)) => false,
        (DatumS::Str(_), DatumS::Int(_)) => false,
        _ => true,
    }
}

/// Natural (ascending) strict order on datums; null sorts first.
pub open spec fn datum_lt_nat(a: DatumS, b: DatumS) -> bool {
    match (a, b) {
        (DatumS::Null, DatumS::Null) => false,
        (DatumS::Null, _) => true,
        (_, DatumS::Null) => false,
        (DatumS::Int(x), DatumS::Int(y)) => x < y,
        (DatumS::Str(x), DatumS::Str(y)) => lex_lt(x, y),
        _ => false,
    }
}

/// Strict order on datums under a column direction.
pub open spec fn datum_lt(dir: Direction, a: DatumS, b: DatumS) -> bool {
    match dir {
        Direction::Ascending => datum_lt_nat(a, b),
        Direction::Descending => datum_lt_nat(b, a),
    }
}

/// Strict lexicographic order on rows under a direction vector.
pub open spec fn row_lt(dirs: Seq<Direction>, a: Seq<DatumS>, b: Seq<DatumS>) -> bool
    decreases a.len(),
{
    if a.len() == 0 || b.len() == 0 || dirs.len() == 0 {
        false
    } else if datum_lt(dirs[0], a[0], b[0]) {
        true
    } else if datum_lt(dirs[0], b[0], a[0]) {
        false
    } else {
        row_lt(dirs.skip(1), a.skip(1), b.skip(1))
    }
}

/// Rows agree in length and are comparable column by column.
pub open spec fn rows_compat(a: Seq<DatumS>, b: Seq<DatumS>) -> bool {
    &&& a.len() == b.len()
    &&& forall|i: int| 0 <= i < a.len() ==> datum_compat(#[trigger] a[i], #[trigger] b[i])
}

pub proof fn lemma_datum_total(dir: Direction, a: DatumS, b: DatumS)
    requires
        datum_compat(a, b),
    ensures
        datum_lt(dir, a, b) || datum_lt(dir, b, a) || a == b,
        !(datum_lt(dir, a, b) && datum_lt(dir, b, a)),
        datum_lt(dir, a, b) ==> a != b,
{
    match (a, b) {
        (DatumS::Int(x), DatumS::Int(y)) => {}
        (DatumS::Str(x), DatumS::Str(y)) => {
            lemma_lex_total(x, y);
            lemma_lex_asym(x, y);
            if lex_lt(x, x) {
                lemma_lex_asym(x, x);
            }
        }
        _ => {}
    }
}

pub proof fn lemma_row_total(dirs: Seq<Direction>, a: Seq<DatumS>, b: Seq<DatumS>)
    requires
        rows_compat(a, b),
        a.len() == dirs.len(),
    ensures
        row_lt(dirs, a, b) || row_lt(dirs, b, a) || a == b,
        !(row_lt(dirs, a, b) && row_lt(dirs, b, a)),
        row_lt(dirs, a, b) ==> a != b,
    decreases a.len(),
{
    if a.len() == 0 {
        assert(a =~= b);
    } else {
        lemma_datum_total(dirs[0], a[0], b[0]);
        if !datum_lt(dirs[0], a[0], b[0]) && !datum_lt(dirs[0], b[0], a[0]) {
            assert(a[0] == b[0]);
            assert(rows_compat(a.skip(1), b.skip(1))) by {
                assert(forall|i: int|
                    0 <= i < a.skip(1).len() ==> a.skip(1)[i] == a[i + 1] && b.skip(1)[i] == b[i
                        + 1]);
            }
            lemma_row_total(dirs.skip(1), a.skip(1), b.skip(1));
            if a.skip(1) == b.skip(1) {
                assert forall|j: int| 0 <= j < a.len() implies a[j] == b[j] by {
                    if j >= 1 {
                        assert(a.skip(1)[j - 1] == a[j]);
                        assert(b.skip(1)[j - 1] == b[j]);
                    }
                }
                assert(a =~= b);
            }
            if a == b {
                assert(a.skip(1) =~= b.skip(1));
            }
        } else {
            if a == b {
                assert(a[0] == b[0]);
            }
        }
    }
}

/// Rows conforming to one schema are comparable column by column.
pub proof fn lemma_wf_compat(schema: Seq<DataType>, a: Seq<DatumS>, b: Seq<DatumS>)
    requires
        row_wf(schema, a),
        row_wf(schema, b),
    ensures
        rows_compat(a, b),
{
    assert forall|i: int| 0 <= i < a.len() implies datum_compat(
        #[trigger] a[i],
        #[trigger] b[i],
    ) by {
        assert(datum_wf(schema[i], a[i]));
        assert(datum_wf(schema[i], b[i]));
    }
}

/// Compare two datums of one column under its direction.
pub fn cmp_datum(dir: Direction, a: &Datum, b: &Datum) -> (c: Cmp)
    requires
        datum_compat(a@, b@),
    ensures
        (c == Cmp::Less) == datum_lt(dir, a@, b@),
        (c == Cmp::Greater) == datum_lt(dir, b@, a@),
        (c == Cmp::Equal) == (a@ == b@),
{
    let nat_cmp: Cmp = match (a, b) {
        (Datum::Null, Datum::Null) => Cmp::Equal,
        (Datum::Null, _) => Cmp::Less,
        (_, Datum::Null) => Cmp::Greater,
        (Datum::Int(x), Datum::Int(y)) => {
            if x < y {
                Cmp::Less
            } else if x > y {
                Cmp::Greater
            } else {
                Cmp::Equal
            }
        },
        (Datum::Str(x), Datum::Str(y)) => cmp_bytes(x, y),
        _ => {
            proof {
                assert(false);
            }
            Cmp::Equal
        },
    };
    match dir {
        Direction::Ascending => nat_cmp,
        Direction::Descending => match nat_cmp {
            Cmp::Less => Cmp::Greater,
            Cmp::Equal => Cmp::Equal,
            Cmp::Greater => Cmp::Less,
        },
    }
}

/// Compare two rows under a direction vector, best column first.
pub fn cmp_rows(dirs: &Vec<Direction>, a: &Row, b: &Row) -> (c: Cmp)
    requires
        a@.len() == dirs@.len(),
        b@.len() == dirs@.len(),
        rows_compat(a@, b@),
    ensures
        (c == Cmp::Less) == row_lt(dirs@, a@, b@),
        (c == Cmp::Greater) == row_lt(dirs@, b@, a@),
        (c == Cmp::Equal) == (a@ == b@),
{
    let n = dirs.len();
    let mut i: usize = 0;
    proof {
        lemma_row_skip_zero(dirs@, a@, b@);
    }
    loop
        invariant
            i <= n,
            n == dirs@.len(),
            a@.len() == n,
            b@.len() == n,
            rows_compat(a@, b@),
            row_lt(dirs@, a@, b@) == row_lt(
                dirs@.skip(i as int),
                a@.skip(i as int),
                b@.skip(i as int),
            ),
            row_lt(dirs@, b@, a@) == row_lt(
                dirs@.skip(i as int),
                b@.skip(i as int),
                a@.skip(i as int),
            ),
            (a@ == b@) == (a@.skip(i as int) == b@.skip(i as int)),
        decreases n - i,
    {
        if i == n {
            proof {
                assert(a@.skip(i as int) =~= b@.skip(i as int));
            }
            return Cmp::Equal;
        }
        let c = cmp_datum(dirs[i], &a.0[i], &b.0[i]);
        proof {
            assert(a@[i as int] == a.0@[i as int]@);
            assert(b@[i as int] == b.0@[i as int]@);
        }
        match c {
            Cmp::Less => {
                proof {
                    lemma_row_skip_head(dirs@, a@, b@, i as int);
                }
                return Cmp::Less;
            },
            Cmp::Greater => {
                proof {
                    lemma_row_skip_head(dirs@, a@, b@, i as int);
                }
                return Cmp::Greater;
            },
            Cmp::Equal => {
                proof {
                    lemma_row_skip_step(dirs@, a@, b@, i as int);
                }
                i = i + 1;
            },
        }
    }
}

proof fn lemma_row_skip_zero(dirs: Seq<Direction>, a: Seq<DatumS>, b: Seq<DatumS>)
    ensures
        dirs.skip(0) == dirs,
        a.skip(0) == a,
        b.skip(0) == b,
{
    assert(dirs.skip(0) =~= dirs);
    assert(a.skip(0) =~= a);
    assert(b.skip(0) =~= b);
}

/// At the first differing column the whole comparison is decided.
proof fn lemma_row_skip_head(dirs: Seq<Direction>, a: Seq<DatumS>, b: Seq<DatumS>, i: int)
    requires
        a.len() == dirs.len(),
        b.len() == dirs.len(),
        0 <= i < dirs.len(),
        rows_compat(a, b),
        a[i] != b[i],
    ensures
        datum_lt(dirs[i], a[i], b[i]) ==> row_lt(dirs.skip(i), a.skip(i), b.skip(i)) && !row_lt(
            dirs.skip(i),
            b.skip(i),
            a.skip(i),
        ) && a != b,
        datum_lt(dirs[i], b[i], a[i]) ==> row_lt(dirs.skip(i), b.skip(i), a.skip(i)) && !row_lt(
            dirs.skip(i),
            a.skip(i),
            b.skip(i),
        ) && a != b,
{
    assert(dirs.skip(i)[0] == dirs[i]);
    assert(a.skip(i)[0] == a[i]);
    assert(b.skip(i)[0] == b[i]);
    lemma_datum_total(dirs[i], a[i], b[i]);
    if a == b {
        assert(a[i] == b[i]);
    }
}

/// Advancing past one equal column leaves order and equality of the
/// remaining suffixes unchanged.
proof fn lemma_row_skip_step(dirs: Seq<Direction>, a: Seq<DatumS>, b: Seq<DatumS>, i: int)
    requires
        a.len() == dirs.len(),
        b.len() == dirs.len(),
        0 <= i < dirs.len(),
        a[i] == b[i],
    ensures
        row_lt(dirs.skip(i), a.skip(i), b.skip(i)) == row_lt(
            dirs.skip(i + 1),
            a.skip(i + 1),
            b.skip(i + 1),
        ),
        row_lt(dirs.skip(i), b.skip(i), a.skip(i)) == row_lt(
            dirs.skip(i + 1),
            b.skip(i + 1),
            a.skip(i + 1),
        ),
        (a.skip(i) == b.skip(i)) == (a.skip(i + 1) == b.skip(i + 1)),
{
    assert(dirs.skip(i)[0] == dirs[i]);
    assert(a.skip(i)[0] == a[i]);
    assert(b.skip(i)[0] == b[i]);
    assert(dirs.skip(i).skip(1) =~= dirs.skip(i + 1));
    assert(a.skip(i).skip(1) =~= a.skip(i + 1));
    assert(b.skip(i).skip(1) =~= b.skip(i + 1));
    lemma_datum_total(dirs[i], a[i], b[i]);
    assert(!datum_lt(dirs[i], a[i], b[i]));
    if a.skip(i) == b.skip(i) {
        assert(a.skip(i).skip(1) == b.skip(i).skip(1));
    }
    if a.skip(i + 1) == b.skip(i + 1) {
        assert forall|j: int| 0 <= j < a.skip(i).len() implies a.skip(i)[j] == b.skip(i)[j] by {
            if j >= 1 {
                assert(a.skip(i)[j] == a[i + j]);
                assert(a.skip(i + 1)[j - 1] == a[i + j]);
                assert(b.skip(i)[j] == b[i + j]);
                assert(b.skip(i + 1)[j - 1] == b[i + j]);
            }
        }
        assert(a.skip(i) =~= b.skip(i));
    }
}

/// Copy a direction vector.
pub fn copy_directions(order: &Vec<Direction>) -> (r: Vec<Direction>)
    ensures
        r@ == order@,
{
    let mut r: Vec<Direction> = Vec::new();
    let mut i: usize = 0;
    while i < order.len()
        invariant
            i <= order.len(),
            r@ == order@.take(i as int),
        decreases order.len() - i,
    {
        r.push(order[i]);
        proof {
            assert(r@ =~= order@.take(i as int + 1));
        }
        i = i + 1;
    }
    proof {
        assert(order@.take(order@.len() as int) =~= order@);
    }
    r
}

/// Copy a byte vector.
pub fn copy_bytes(v: &Vec<u8>) -> (r: Vec<u8>)
    ensures
        r@ == v@,
{
    let mut r: Vec<u8> = Vec::new();
    let mut i: usize = 0;
    while i < v.len()
        invariant
            i <= v.len(),
            r@ == v@.take(i as int),
        decreases v.len() - i,
    {
        r.push(v[i]);
        proof {
            assert(r@ =~= v@.take(i as int + 1));
        }
        i = i + 1;
    }
    proof {
        assert(v@.take(v@.len() as int) =~= v@);
    }
    r
}

/// Copy one datum.
pub fn copy_datum(d: &Datum) -> (r: Datum)
    ensures
        r@ == d@,
{
    match d {
        Datum::Null => Datum::Null,
        Datum::Int(x) => Datum::Int(*x),
        Datum::Str(b) => Datum::Str(copy_bytes(b)),
    }
}

/// Copy a row.
pub fn copy_row(r: &Row) -> (out: Row)
    ensures
        out@ == r@,
{
    let mut vals: Vec<Datum> = Vec::new();
    let mut i: usize = 0;
    while i < r.0.len()
        invariant
            i <= r.0.len(),
            vals@.len() == i,
            forall|j: int| 0 <= j < i ==> (#[trigger] vals@[j])@ == r@[j],
        decreases r.0.len() - i,
    {
        let d = copy_datum(&r.0[i]);
        proof {
            assert(r@[i as int] == r.0@[i as int]@);
        }
        vals.push(d);
        i = i + 1;
    }
    let out = Row(vals);
    proof {
        assert(out@ =~= r@);
    }
    out
}

/// Copy an ordered row.
pub fn copy_ordered_row(o: &OrderedRow) -> (r: OrderedRow)
    ensures
        r.row@ == o.row@,
        r.order@ == o.order@,
{
    OrderedRow { row: copy_row(&o.row), order: copy_directions(&o.order) }
}

impl OrderedRow {
    /// Attach a direction vector to a row.
    pub fn new(row: Row, order: &Vec<Direction>) -> (r: OrderedRow)
        ensures
            r.row@ == row@,
            r.order@ == order@,
    {
        OrderedRow { row, order: copy_directions(order) }
    }

    /// Give the underlying row back.
    pub fn into_row(self) -> (r: Row)
        ensures
            r@ == self.row@,
    {
        self.row
    }
}

/// Total order on two rows sharing one direction vector, best column first.
pub fn compare(a: &OrderedRow, b: &OrderedRow) -> (c: Cmp)
    requires
        a.order@ == b.order@,
        a.row@.len() == a.order@.len(),
        b.row@.len() == b.order@.len(),
        rows_compat(a.row@, b.row@),
    ensures
        (c == Cmp::Less) == row_lt(a.order@, a.row@, b.row@),
        (c == Cmp::Greater) == row_lt(a.order@, b.row@, a.row@),
        (c == Cmp::Equal) == (a.row@ == b.row@),
{
    cmp_rows(&a.order, &a.row, &b.row)
}

} // verus!
