use vstd::prelude::*;

use crate::array::Array;

verus! {

/// An address into the variable store: the index of a variable slot
/// plus a cell offset within that slot's array value.  A pointer is a
/// lookup key resolved through the store at use time, never a memory
/// reference; it is produced only by evaluating an identifier bound to
/// a variable.
#[derive(Debug, Clone, Copy, PartialEq, Eq, Structural, Hash)]
pub struct Pointer {
    pub address: usize,
    pub offset: usize,
}

impl Pointer {
    /// A pointer to variable slot `address`, `offset` cells in.
    pub fn new(address: usize, offset: usize) -> (p: Self)
        ensures
            p == (Pointer { address, offset }),
    {
        Pointer { address, offset }
    }
}

/// The mathematical value of an `Array`: the cell contents together
/// with the logical size and the capacity ceiling fixed at creation.
#[verifier::ext_equal]
pub struct ArrV {
    pub cells: Seq<LitV>,
    pub size: nat,
    pub cap: nat,
}

/// The mathematical value of a `Literal`.
#[verifier::ext_equal]
pub enum LitV {
    Ptr(Pointer),
    Int(i64),
    Str(Seq<char>),
    Arr(ArrV),
    Unknown,
}

/// Well-formedness of a literal value: every array below it keeps
/// exactly `cap + size` cells (`cap` zero-initialised cells from
/// creation plus one appended cell per successful push).
pub open spec fn lit_wf(l: LitV) -> bool
    decreases l,
{
    match l {
        LitV::Arr(a) => arr_wf(a),
        _ => true,
    }
}

/// Well-formedness of an array value; see [`lit_wf`].
pub open spec fn arr_wf(a: ArrV) -> bool
    decreases a,
{
    &&& a.cells.len() == a.cap + a.size
    &&& forall|i: int| 0 <= i < a.cells.len() ==> lit_wf(#[trigger] a.cells[i])
}

/// Spells out what well-formedness of an array value provides.
pub proof fn lemma_arr_wf_unfold(a: ArrV)
    requires
        arr_wf(a),
    ensures
        a.cells.len() == a.cap + a.size,
        forall|i: int| 0 <= i < a.cells.len() ==> lit_wf(#[trigger] a.cells[i]),
{
    assert forall|i: int| 0 <= i < a.cells.len() implies lit_wf(#[trigger] a.cells[i]) by {
        assert(lit_wf(a.cells[i]));
    }
}

/// A first-class runtime value: the closed set of shapes the data
/// stack and variable slots may hold.  Equality is defined only
/// between same-tag values.
#[derive(Debug)]
pub enum Literal {
    Pointer(Pointer),
    Integer(i64),
    String(String),
    Array(Array),
    Unknown,
}

impl View for Literal {
    type V = LitV;

    open spec fn view(&self) -> LitV
        decreases self,
    {
        match self {
            Literal::Pointer(p) => LitV::Ptr(*p),
            Literal::Integer(i) => LitV::Int(*i),
            Literal::String(s) => LitV::Str(s@),
            Literal::Array(a) => LitV::Arr(a@),
            Literal::Unknown => LitV::Unknown,
        }
    }
}

/// The cell-by-cell mathematical view of a sequence of literals.
pub open spec fn seq_lit_view(s: Seq<Literal>) -> Seq<LitV>
    decreases s,
{
    Seq::new(
        s.len(),
        |i: int|
            if 0 <= i < s.len() {
                s[i]@
            } else {
                LitV::Unknown
            },
    )
}

impl Literal {
    /// A copy of this literal with the same mathematical value.
    pub fn duplicate(&self) -> (r: Literal)
        ensures
            r@ == self@,
        decreases self,
    {
        match self {
            Literal::Pointer(p) => Literal::Pointer(*p),
            Literal::Integer(i) => Literal::Integer(*i),
            Literal::String(s) => Literal::String(s.clone()),
            Literal::Array(a) => Literal::Array(a.duplicate()),
            Literal::Unknown => Literal::Unknown,
        }
    }
}

/// Same-tag equality: integers, pointers and strings compare by value,
/// arrays compare cell by cell together with size and capacity, and
/// `Unknown` equals only `Unknown`.  This coincides with equality of
/// the mathematical views.
pub fn literal_eq(a: &Literal, b: &Literal) -> (r: bool)
    ensures
        r == (a@ == b@),
    decreases a,
{
    match (a, b) {
        (Literal::Integer(i), Literal::Integer(j)) => *i == *j,
        (Literal::Pointer(p), Literal::Pointer(q)) => *p == *q,
        (Literal::String(s), Literal::String(t)) => (*s).eq(&*t),
        (Literal::Array(x), Literal::Array(y)) => crate::array::array_eq(x, y),
        (Literal::Unknown, Literal::Unknown) => true,
        _ => false,
    }
}

// ---------------------------------------------------------------------
// Ordering of literals.  Ordering is defined only between same-tag
// values: integers by value, pointers lexicographically by address
// then offset, strings lexicographically by code point, and arrays
// lexicographically cell by cell under this same ordering, then by
// logical size, then by capacity.  `Unknown` never orders, and a
// cross-tag pair never orders.
// ---------------------------------------------------------------------
/// Lexicographic comparison of character sequences by code point:
/// negative, zero or positive.
pub open spec fn spec_str_cmp(a: Seq<char>, b: Seq<char>) -> int
    decreases a.len(),
{
    if a.len() == 0 && b.len() == 0 {
        0
    } else if a.len() == 0 {
        -1
    } else if b.len() == 0 {
        1
    } else if (a[0] as u32) < (b[0] as u32) {
        -1
    } else if (a[0] as u32) > (b[0] as u32) {
        1
    } else {
        spec_str_cmp(a.skip(1), b.skip(1))
    }
}

/// Lexicographic comparison of cell sequences: the first unequal
/// comparable pair decides, an incomparable pair before any decision
/// makes the whole comparison undefined, and a strict prefix orders
/// before its extension.
pub open spec fn spec_cells_cmp(a: Seq<LitV>, b: Seq<LitV>) -> Option<int>
    decreases a,
{
    if a.len() == 0 && b.len() == 0 {
        Some(0int)
    } else if a.len() == 0 {
        Some(-1int)
    } else if b.len() == 0 {
        Some(1int)
    } else {
        match spec_lit_cmp(a[0], b[0]) {
            None => None,
            Some(c) => if c != 0 {
                Some(c)
            } else {
                spec_cells_cmp(a.subrange(1, a.len() as int), b.subrange(1, b.len() as int))
            },
        }
    }
}

/// Ordering of two array values: cells first, then logical size, then
/// capacity.
pub open spec fn spec_arr_cmp(x: ArrV, y: ArrV) -> Option<int>
    decreases x,
{
    match spec_cells_cmp(x.cells, y.cells) {
        None => None,
        Some(c) => if c != 0 {
            Some(c)
        } else if x.size < y.size {
            Some(-1int)
        } else if x.size > y.size {
            Some(1int)
        } else if x.cap < y.cap {
            Some(-1int)
        } else if x.cap > y.cap {
            Some(1int)
        } else {
            Some(0int)
        },
    }
}

/// Ordering of two literal values; see the section comment above.
pub open spec fn spec_lit_cmp(a: LitV, b: LitV) -> Option<int>
    decreases a,
{
    match (a, b) {
        (LitV::Int(x), LitV::Int(y)) => Some(
            if x < y {
                -1int
            } else if x == y {
                0
            } else {
                1
            },
        ),
        (LitV::Ptr(p), LitV::Ptr(q)) => Some(
            if p.address < q.address {
                -1int
            } else if p.address > q.address {
                1
            } else if p.offset < q.offset {
                -1
            } else if p.offset > q.offset {
                1
            } else {
                0
            },
        ),
        (LitV::Str(x), LitV::Str(y)) => Some(spec_str_cmp(x, y)),
        (LitV::Arr(x), LitV::Arr(y)) => spec_arr_cmp(x, y),
        _ => None,
    }
}

/// Lexicographic string comparison by code point; mirrors
/// [`spec_str_cmp`].
fn str_compare(a: &str, b: &str) -> (r: i8)
    ensures
        r as int == spec_str_cmp(a@, b@),
{
    let an = a.unicode_len();
    let bn = b.unicode_len();
    let mut i: usize = 0;
    proof {
        assert(a@.skip(0) =~= a@);
        assert(b@.skip(0) =~= b@);
    }
    while i < an && i < bn
        invariant
            i <= an,
            i <= bn,
            an == a@.len(),
            bn == b@.len(),
            spec_str_cmp(a@, b@) == spec_str_cmp(a@.skip(i as int), b@.skip(i as int)),
        decreases an - i,
    {
        let ca = a.get_char(i);
        let cb = b.get_char(i);
        proof {
            assert(a@.skip(i as int)[0] == a@[i as int]);
            assert(b@.skip(i as int)[0] == b@[i as int]);
            assert(a@.skip(i as int).skip(1) =~= a@.skip(i + 1));
            assert(b@.skip(i as int).skip(1) =~= b@.skip(i + 1));
        }
        if (ca as u32) < (cb as u32) {
            return -1;
        }
        if (ca as u32) > (cb as u32) {
            return 1;
        }
        i += 1;
    }
    proof {
        assert(a@.skip(i as int).len() == an - i);
        assert(b@.skip(i as int).len() == bn - i);
    }
    if an == bn {
        0
    } else if an < bn {
        proof {
            assert(a@.skip(i as int).len() == 0);
            assert(b@.skip(i as int).len() > 0);
        }
        -1
    } else {
        1
    }
}

/// Ordering of two literals; mirrors [`spec_lit_cmp`].
pub fn literal_cmp(a: &Literal, b: &Literal) -> (r: Option<i8>)
    ensures
        match (r, spec_lit_cmp(a@, b@)) {
            (Some(x), Some(v)) => x as int == v,
            (None, None) => true,
            _ => false,
        },
    decreases a,
{
    match (a, b) {
        (Literal::Integer(x), Literal::Integer(y)) => Some(
            if *x < *y {
                -1
            } else if *x == *y {
                0
            } else {
                1
            },
        ),
        (Literal::Pointer(p), Literal::Pointer(q)) => Some(
            if p.address < q.address {
                -1
            } else if p.address > q.address {
                1
            } else if p.offset < q.offset {
                -1
            } else if p.offset > q.offset {
                1
            } else {
                0
            },
        ),
        (Literal::String(x), Literal::String(y)) => Some(str_compare(x.as_str(), y.as_str())),
        (Literal::Array(x), Literal::Array(y)) => crate::array::array_cmp(x, y),
        _ => None,
    }
}

impl PartialEq for Literal {
    fn eq(&self, other: &Self) -> bool {
        literal_eq(self, other)
    }
}

impl vstd::std_specs::cmp::PartialEqSpecImpl for Literal {
    open spec fn obeys_eq_spec() -> bool {
        true
    }

    open spec fn eq_spec(&self, other: &Self) -> bool {
        self@ == other@
    }
}

impl From<i64> for Literal {
    /// An integer literal carrying `value`.
    fn from(value: i64) -> (r: Self) {
        Literal::Integer(value)
    }
}

impl vstd::std_specs::convert::FromSpecImpl<i64> for Literal {
    open spec fn obeys_from_spec() -> bool {
        true
    }

    open spec fn from_spec(value: i64) -> Self {
        Literal::Integer(value)
    }
}

} // verus!
