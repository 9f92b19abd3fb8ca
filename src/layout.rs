//! The shape of a categorical fit: how many observations, which parameter
//! slot scales each row, and which closed-form derivative fills each cell of
//! the analytic Jacobian.
use vstd::prelude::*;
use crate::encoder::{
    CategoryIndex,
    CONTINUOUS_COEFFICIENTS,
    distinct_sorted,
    label_views,
    lemma_slots_bijective,
    slot_of,
    sorted_distinct,
};

verus! {

/// Why observations or a parameter vector do not fit together.
#[derive(Debug, Clone, Copy, PartialEq, Eq, Structural)]
pub enum FitError {
    /// The observation arrays differ in length.
    LengthMismatch,
    /// The parameter vector does not have one entry per coefficient and
    /// category.
    ParamCountMismatch { expected: usize, found: usize },
}

/// What stands in one cell of the analytic Jacobian, for the model
/// `(a*x + b*y + c) * m` and the residual `f - (a*x + b*y + c) * m`; `m` is
/// the row's category multiplier, or one for a row without a category slot.
#[derive(Debug, Clone, Copy, PartialEq, Eq, Structural)]
pub enum JacobianEntry {
    /// `-x * m`: the derivative with respect to `a`.
    NegXTimesMultiplier,
    /// `-y * m`: the derivative with respect to `b`.
    NegYTimesMultiplier,
    /// `-m`: the derivative with respect to `c`.
    NegMultiplier,
    /// `-(a*x + b*y + c)`: the derivative with respect to the row's own
    /// multiplier.
    NegLinearPart,
    /// The row does not depend on this parameter.
    Zero,
}

/// The Jacobian cell in column `col` of a row whose multiplier sits at `slot`.
pub open spec fn entry_of(col: int, slot: Option<usize>) -> JacobianEntry {
    if col == 0 {
        JacobianEntry::NegXTimesMultiplier
    } else if col == 1 {
        JacobianEntry::NegYTimesMultiplier
    } else if col == 2 {
        JacobianEntry::NegMultiplier
    } else if slot == Some(col as usize) {
        JacobianEntry::NegLinearPart
    } else {
        JacobianEntry::Zero
    }
}

/// The slot of each label, as the index maps it.
pub open spec fn slots_of(cats: Seq<Seq<char>>, labels: Seq<Seq<char>>) -> Seq<Option<usize>> {
    Seq::new(
        labels.len(),
        |i: int|
            match slot_of(cats, labels[i]) {
                Some(s) => Some(s as usize),
                None => None,
            },
    )
}

/// The analytic Jacobian cell in column `col` of a row whose multiplier sits
/// at `slot` (`None`: the row has no category and a multiplier of one).
pub fn analytic_entry(col: usize, slot: Option<usize>) -> (r: JacobianEntry)
    ensures
        r == entry_of(col as int, slot),
{
    if col == 0 {
        JacobianEntry::NegXTimesMultiplier
    } else if col == 1 {
        JacobianEntry::NegYTimesMultiplier
    } else if col == 2 {
        JacobianEntry::NegMultiplier
    } else {
        match slot {
            Some(s) => if s == col {
                JacobianEntry::NegLinearPart
            } else {
                JacobianEntry::Zero
            },
            None => JacobianEntry::Zero,
        }
    }
}

/// The observations of a fit, less their values: the category index built
/// from their labels, and for each row the slot of its multiplier.
pub struct FitLayout {
    index: CategoryIndex,
    slots: Vec<Option<usize>>,
}

impl FitLayout {
    /// The sorted, distinct category labels.
    pub closed spec fn categories(&self) -> Seq<Seq<char>> {
        self.index@
    }

    /// For each observation, the slot of its multiplier.
    pub closed spec fn row_slots(&self) -> Seq<Option<usize>> {
        self.slots@
    }

    /// The index is well formed and every row's slot is one of its category
    /// slots.
    pub open spec fn wf(&self) -> bool {
        &&& sorted_distinct(self.categories())
        &&& self.categories().len() + CONTINUOUS_COEFFICIENTS <= usize::MAX
        &&& forall|i: int|
            0 <= i < self.row_slots().len() ==> (#[trigger] self.row_slots()[i] matches Some(s) ==> CONTINUOUS_COEFFICIENTS
                <= s < CONTINUOUS_COEFFICIENTS + self.categories().len())
    }

    /// Checks that the observation arrays agree in length and builds the
    /// layout. `labels` is `None` for a fit without a category input, whose
    /// rows all have a multiplier of one.
    pub fn new(x_len: usize, y_len: usize, labels: Option<&[String]>, f_len: usize) -> (r: Result<
        FitLayout,
        FitError,
    >)
        requires
            labels matches Some(z) ==> z@.len() + CONTINUOUS_COEFFICIENTS <= usize::MAX,
        ensures
            r is Ok <==> x_len == y_len && y_len == f_len && (labels matches Some(z) ==> z@.len()
                == x_len),
            r is Err ==> r == Err::<FitLayout, FitError>(FitError::LengthMismatch),
            r matches Ok(l) ==> {
                &&& l.wf()
                &&& l.row_slots().len() == x_len
                &&& match labels {
                    Some(z) => {
                        &&& l.categories() == distinct_sorted(label_views(z@))
                        &&& l.row_slots() == slots_of(l.categories(), label_views(z@))
                    },
                    None => {
                        &&& l.categories().len() == 0
                        &&& forall|i: int| 0 <= i < x_len ==> l.row_slots()[i] is None
                    },
                }
            },
    {
        if x_len != y_len || y_len != f_len {
            return Err(FitError::LengthMismatch);
        }
        match labels {
            Some(z) => {
                if z.len() != x_len {
                    return Err(FitError::LengthMismatch);
                }
                let index = CategoryIndex::build(z);
                let mut slots: Vec<Option<usize>> = Vec::new();
                for i in 0..z.len()
                    invariant
                        index.wf(),
                        index@ == distinct_sorted(label_views(z@)),
                        slots@ =~= slots_of(index@, label_views(z@)).subrange(0, i as int),
                        forall|j: int|
                            0 <= j < i ==> (#[trigger] slots@[j] matches Some(s) ==> CONTINUOUS_COEFFICIENTS
                                <= s < CONTINUOUS_COEFFICIENTS + index@.len()),
                {
                    let s = index.index_of(z[i].as_str());
                    proof {
                        lemma_slots_bijective(index@, z@[i as int]@, z@[i as int]@, 0);
                    }
                    slots.push(s);
                }
                assert(slots@ =~= slots_of(index@, label_views(z@)));
                Ok(FitLayout { index, slots })
            },
            None => {
                let index = CategoryIndex::build(&[]);
                let mut slots: Vec<Option<usize>> = Vec::new();
                for i in 0..x_len
                    invariant
                        slots@.len() == i,
                        forall|j: int| 0 <= j < i ==> slots@[j] is None,
                {
                    slots.push(None);
                }
                Ok(FitLayout { index, slots })
            },
        }
    }

    /// The number of observations.
    pub fn observation_count(&self) -> (r: usize)
        ensures
            r == self.row_slots().len(),
    {
        self.slots.len()
    }

    /// The length of the parameter vector: `a`, `b`, `c`, then one multiplier
    /// per category.
    pub fn param_count(&self) -> (r: usize)
        requires
            self.wf(),
        ensures
            r == CONTINUOUS_COEFFICIENTS + self.categories().len(),
    {
        self.index.param_count()
    }

    /// Checks a parameter vector's length against the layout.
    pub fn check_params(&self, n_params: usize) -> (r: Result<(), FitError>)
        requires
            self.wf(),
        ensures
            r is Ok <==> n_params == CONTINUOUS_COEFFICIENTS + self.categories().len(),
            r is Err ==> r == Err::<(), FitError>(
                FitError::ParamCountMismatch {
                    expected: (CONTINUOUS_COEFFICIENTS + self.categories().len()) as usize,
                    found: n_params,
                },
            ),
    {
        let expected = self.index.param_count();
        if n_params == expected {
            Ok(())
        } else {
            Err(FitError::ParamCountMismatch { expected, found: n_params })
        }
    }

    /// The slot of the multiplier that scales observation `row`; `None` when
    /// its multiplier is one.
    pub fn row_slot(&self, row: usize) -> (r: Option<usize>)
        requires
            row < self.row_slots().len(),
        ensures
            r == self.row_slots()[row as int],
    {
        self.slots[row]
    }

    /// The analytic Jacobian cell of observation `row` and parameter `col`.
    pub fn jacobian_entry(&self, row: usize, col: usize) -> (r: JacobianEntry)
        requires
            row < self.row_slots().len(),
        ensures
            r == entry_of(col as int, self.row_slots()[row as int]),
    {
        analytic_entry(col, self.slots[row])
    }

    /// The category index the layout was built with.
    pub fn index(&self) -> (r: &CategoryIndex)
        ensures
            r@ == self.categories(),
            self.wf() ==> r.wf(),
    {
        &self.index
    }
}

/// Residuals and Jacobian agree on the index: a row with a category slot has
/// exactly one nonzero category column, at that slot, inside the parameter
/// vector; a row without one has none.
pub proof fn lemma_one_category_column(layout: FitLayout, row: int, col: int)
    requires
        layout.wf(),
        0 <= row < layout.row_slots().len(),
        CONTINUOUS_COEFFICIENTS <= col < CONTINUOUS_COEFFICIENTS + layout.categories().len(),
    ensures
        layout.row_slots()[row] matches Some(s) ==> CONTINUOUS_COEFFICIENTS <= s
            < CONTINUOUS_COEFFICIENTS + layout.categories().len(),
        entry_of(col, layout.row_slots()[row]) == JacobianEntry::NegLinearPart <==> layout.row_slots()[row]
            == Some(col as usize),
        entry_of(col, layout.row_slots()[row]) != JacobianEntry::NegLinearPart ==> entry_of(
            col,
            layout.row_slots()[row],
        ) == JacobianEntry::Zero,
{
    assert(layout.row_slots()[row] matches Some(s) ==> CONTINUOUS_COEFFICIENTS <= s
        < CONTINUOUS_COEFFICIENTS + layout.categories().len());
}

} // verus!
