use vstd::prelude::*;

use crate::errors::ForthError;
use crate::literal::{arr_wf, seq_lit_view, ArrV, LitV, Literal};

verus! {

/// A bounded sequence of literals living inside a variable slot.
///
/// Creation fixes a capacity ceiling and fills `capacity` cells with
/// `Integer(0)`; indexed reads and writes are checked against the
/// bounds, and pushes append after the initial cells until the logical
/// size reaches the ceiling.
#[derive(Debug)]
pub struct Array {
    storage: Vec<Literal>,
    size: usize,
    capacity: usize,
}

impl View for Array {
    type V = ArrV;

    closed spec fn view(&self) -> ArrV
        decreases self,
    {
        ArrV {
            cells: seq_lit_view(self.storage@),
            size: self.size as nat,
            cap: self.capacity as nat,
        }
    }
}

/// Spells out how an array's view is assembled from its fields.
proof fn lemma_view_cells(a: Array)
    ensures
        a@.cells.len() == a.storage@.len(),
        forall|i: int| 0 <= i < a.storage@.len() ==> #[trigger] a@.cells[i] == a.storage@[i]@,
        a@.size == a.size as nat,
        a@.cap == a.capacity as nat,
{
    assert(a@.cells == seq_lit_view(a.storage@));
    assert forall|i: int| 0 <= i < a.storage@.len() implies #[trigger] a@.cells[i] == a.storage@[i]@ by {
        assert(seq_lit_view(a.storage@)[i] == a.storage@[i]@);
    }
}

impl Array {
    /// A fresh array of capacity `size`, all cells `Integer(0)` and
    /// logical size zero.
    pub fn new(size: usize) -> (a: Self)
        ensures
            a@ == (ArrV {
                cells: Seq::new(size as nat, |i: int| LitV::Int(0)),
                size: 0,
                cap: size as nat,
            }),
            arr_wf(a@),
    {
        let mut storage: Vec<Literal> = Vec::new();
        let mut i: usize = 0;
        while i < size
            invariant
                i <= size,
                storage@.len() == i,
                forall|j: int| 0 <= j < i ==> #[trigger] storage@[j]@ == LitV::Int(0),
            decreases size - i,
        {
            storage.push(Literal::Integer(0));
            i += 1;
        }
        let a = Array { storage, size: 0, capacity: size };
        proof {
            lemma_view_cells(a);
            assert(a@.cells =~= Seq::new(size as nat, |i: int| LitV::Int(0)));
            assert(a@ =~= (ArrV {
                cells: Seq::new(size as nat, |i: int| LitV::Int(0)),
                size: 0,
                cap: size as nat,
            }));
        }
        a
    }

    /// The cell at `index`, or `None` beyond the stored cells.
    pub fn get(&self, index: usize) -> (r: Option<&Literal>)
        ensures
            index < self@.cells.len() ==> (r matches Some(l) && l@ == self@.cells[index as int]),
            index >= self@.cells.len() ==> r is None,
    {
        proof {
            lemma_view_cells(*self);
        }
        if index < self.storage.len() {
            Some(&self.storage[index])
        } else {
            None
        }
    }

    /// Appends `value` after the stored cells; fails with
    /// `IndexOutOfBound` once the logical size has reached the
    /// capacity ceiling.
    pub fn push(&mut self, value: Literal) -> (r: Result<(), ForthError>)
        ensures
            old(self)@.size >= old(self)@.cap ==> (r == Result::<(), ForthError>::Err(
                ForthError::IndexOutOfBound,
            ) && final(self)@ == old(self)@),
            old(self)@.size < old(self)@.cap ==> (r == Result::<(), ForthError>::Ok(())
                && final(self)@ == (ArrV {
                cells: old(self)@.cells.push(value@),
                size: old(self)@.size + 1,
                cap: old(self)@.cap,
            })),
    {
        if self.size >= self.capacity {
            Err(ForthError::IndexOutOfBound)
        } else {
            let ghost prior = *self;
            self.storage.push(value);
            self.size = self.size + 1;
            proof {
                lemma_view_cells(prior);
                lemma_view_cells(*self);
                assert(self@.cells =~= prior@.cells.push(value@));
                assert(self@ =~= (ArrV {
                    cells: prior@.cells.push(value@),
                    size: prior@.size + 1,
                    cap: prior@.cap,
                }));
            }
            Ok(())
        }
    }

    /// Overwrites the cell at `index`; fails with `IndexOutOfBound` at
    /// or beyond the capacity ceiling.
    pub fn set(&mut self, index: usize, value: Literal) -> (r: Result<(), ForthError>)
        requires
            arr_wf(old(self)@),
        ensures
            index >= old(self)@.cap ==> (r == Result::<(), ForthError>::Err(
                ForthError::IndexOutOfBound,
            ) && final(self)@ == old(self)@),
            index < old(self)@.cap ==> (r == Result::<(), ForthError>::Ok(()) && final(self)@
                == (ArrV {
                cells: old(self)@.cells.update(index as int, value@),
                size: old(self)@.size,
                cap: old(self)@.cap,
            })),
    {
        proof {
            lemma_view_cells(*self);
        }
        if index < self.capacity {
            let ghost prior = *self;
            self.storage.set(index, value);
            proof {
                lemma_view_cells(prior);
                lemma_view_cells(*self);
                assert(self@.cells =~= prior@.cells.update(index as int, value@));
                assert(self@ =~= (ArrV {
                    cells: prior@.cells.update(index as int, value@),
                    size: prior@.size,
                    cap: prior@.cap,
                }));
            }
            Ok(())
        } else {
            Err(ForthError::IndexOutOfBound)
        }
    }

    /// The logical size: how many cells have been appended by push.
    pub(crate) fn size(&self) -> (n: usize)
        ensures
            n == self@.size,
    {
        self.size
    }

    /// The capacity ceiling fixed at creation.
    pub fn capacity(&self) -> (c: usize)
        ensures
            c == self@.cap,
    {
        self.capacity
    }

    /// A copy of this array with the same mathematical value.
    pub fn duplicate(&self) -> (r: Array)
        ensures
            r@ == self@,
        decreases self,
    {
        let mut storage: Vec<Literal> = Vec::new();
        let n = self.storage.len();
        let mut i: usize = 0;
        while i < n
            invariant
                n == self.storage@.len(),
                i <= n,
                storage@.len() == i,
                forall|j: int| 0 <= j < i ==> #[trigger] storage@[j]@ == self.storage@[j]@,
            decreases n - i,
        {
            storage.push(self.storage[i].duplicate());
            i += 1;
        }
        let a = Array { storage, size: self.size, capacity: self.capacity };
        proof {
            lemma_view_cells(a);
            lemma_view_cells(*self);
            assert(a@.cells =~= self@.cells);
            assert(a@ =~= self@);
        }
        a
    }
}

/// Cell-by-cell equality of arrays, together with logical size and
/// capacity; coincides with equality of the mathematical views.
pub(crate) fn array_eq(a: &Array, b: &Array) -> (r: bool)
    ensures
        r == (a@ == b@),
    decreases a,
{
    proof {
        lemma_view_cells(*a);
        lemma_view_cells(*b);
    }
    if a.storage.len() != b.storage.len() || a.size != b.size || a.capacity != b.capacity {
        return false;
    }
    let n = a.storage.len();
    let mut i: usize = 0;
    while i < n
        invariant
            n == a.storage@.len(),
            n == b.storage@.len(),
            a.size == b.size,
            a.capacity == b.capacity,
            i <= n,
            forall|j: int| 0 <= j < i ==> a@.cells[j] == b@.cells[j],
        decreases n - i,
    {
        proof {
            lemma_view_cells(*a);
            lemma_view_cells(*b);
        }
        if !crate::literal::literal_eq(&a.storage[i], &b.storage[i]) {
            proof {
                assert(a@.cells[i as int] == a.storage@[i as int]@);
                assert(b@.cells[i as int] == b.storage@[i as int]@);
            }
            return false;
        }
        i += 1;
    }
    proof {
        lemma_view_cells(*a);
        lemma_view_cells(*b);
        assert(a@.cells =~= b@.cells);
        assert(a@ =~= b@);
    }
    true
}

/// Lexicographic ordering of arrays: cell by cell under the literal
/// ordering, then by logical size, then by capacity; coincides with
/// [`spec_arr_cmp`] on the mathematical views.
pub(crate) fn array_cmp(a: &Array, b: &Array) -> (r: Option<i8>)
    ensures
        match (r, crate::literal::spec_arr_cmp(a@, b@)) {
            (Some(x), Some(v)) => x as int == v,
            (None, None) => true,
            _ => false,
        },
    decreases a,
{
    proof {
        lemma_view_cells(*a);
        lemma_view_cells(*b);
        assert(a@.cells.subrange(0, a@.cells.len() as int) =~= a@.cells);
        assert(b@.cells.subrange(0, b@.cells.len() as int) =~= b@.cells);
    }
    let an = a.storage.len();
    let bn = b.storage.len();
    let mut i: usize = 0;
    while i < an && i < bn
        invariant
            i <= an,
            i <= bn,
            an == a.storage@.len(),
            bn == b.storage@.len(),
            an == a@.cells.len(),
            bn == b@.cells.len(),
            crate::literal::spec_cells_cmp(a@.cells, b@.cells)
                == crate::literal::spec_cells_cmp(
                a@.cells.skip(i as int),
                b@.cells.skip(i as int),
            ),
        decreases an - i,
    {
        proof {
            lemma_view_cells(*a);
            lemma_view_cells(*b);
            assert(a@.cells.skip(i as int)[0] == a@.cells[i as int]);
            assert(b@.cells.skip(i as int)[0] == b@.cells[i as int]);
            assert(a@.cells[i as int] == a.storage@[i as int]@);
            assert(b@.cells[i as int] == b.storage@[i as int]@);
            assert(a@.cells.skip(i as int).subrange(
                1,
                a@.cells.skip(i as int).len() as int,
            ) =~= a@.cells.skip(i + 1));
            assert(b@.cells.skip(i as int).subrange(
                1,
                b@.cells.skip(i as int).len() as int,
            ) =~= b@.cells.skip(i + 1));
        }
        match crate::literal::literal_cmp(&a.storage[i], &b.storage[i]) {
            None => {
                return None;
            },
            Some(c) => {
                if c != 0 {
                    return Some(c);
                }
            },
        }
        i += 1;
    }
    proof {
        lemma_view_cells(*a);
        lemma_view_cells(*b);
        assert(a@.cells.skip(i as int).len() == an - i);
        assert(b@.cells.skip(i as int).len() == bn - i);
    }
    if an < bn {
        Some(-1)
    } else if an > bn {
        Some(1)
    } else if a.size < b.size {
        Some(-1)
    } else if a.size > b.size {
        Some(1)
    } else if a.capacity < b.capacity {
        Some(-1)
    } else if a.capacity > b.capacity {
        Some(1)
    } else {
        Some(0)
    }
}

} // verus!
