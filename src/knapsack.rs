//! The 0/1 knapsack problem solved by dynamic programming.
use vstd::prelude::*;

verus! {

/// A knapsack of a given capacity.
#[derive(Clone, Copy)]
pub struct Knapsack {
    pub capacity: usize,
}

/// An object that may be packed.
#[derive(Debug, PartialEq)]
pub struct Object {
    pub weight: usize,
    pub value: usize,
    pub name: String,
    pub id: usize,
}

impl Object {
    /// Creates an object.
    pub fn from(id: usize, name: &str, weight: usize, value: usize) -> (r: Self)
        ensures
            r.id == id,
            r.name@ == name@,
            r.weight == weight,
            r.value == value,
    {
        Self { id, name: name.to_owned(), weight, value }
    }
}

/// The table of best values: entry `(r, c)` is the best value of the first
/// `r` objects in capacity `c`.
pub struct Array2D {
    pub columns: usize,
    pub rows: usize,
    pub array: Vec<Vec<usize>>,
}

/// Best value of a packing of the first `r` objects in capacity `c`.
pub open spec fn best(objects: Seq<Object>, r: nat, c: nat) -> nat
    decreases r,
{
    if r == 0 || c == 0 {
        0
    } else {
        let o = objects[r - 1];
        let without = best(objects, (r - 1) as nat, c);
        if o.weight > c {
            without
        } else {
            let with = best(objects, (r - 1) as nat, (c - o.weight) as nat) + o.value as nat;
            if without >= with {
                without
            } else {
                with
            }
        }
    }
}

/// Total value of the first `r` objects.
pub open spec fn value_sum(objects: Seq<Object>, r: nat) -> nat
    decreases r,
{
    if r == 0 {
        0
    } else {
        value_sum(objects, (r - 1) as nat) + objects[r - 1].value as nat
    }
}

/// Total weight of a sequence of objects.
pub open spec fn weight_of(objects: Seq<Object>) -> nat
    decreases objects.len(),
{
    if objects.len() == 0 {
        0
    } else {
        weight_of(objects.drop_last()) + objects.last().weight as nat
    }
}

/// Total value of a sequence of objects.
pub open spec fn value_of(objects: Seq<Object>) -> nat
    decreases objects.len(),
{
    if objects.len() == 0 {
        0
    } else {
        value_of(objects.drop_last()) + objects.last().value as nat
    }
}

/// `packed` copies the objects at the strictly decreasing indices `idx`.
pub open spec fn picks(objects: Seq<Object>, packed: Seq<Object>, idx: Seq<int>) -> bool {
    idx.len() == packed.len() && forall|k: int|
        0 <= k < idx.len() ==> 0 <= #[trigger] idx[k] < objects.len() && (k > 0 ==> idx[k] < idx[k
            - 1]) && packed[k].weight == objects[idx[k]].weight && packed[k].value
            == objects[idx[k]].value && packed[k].id == objects[idx[k]].id && packed[k].name@
            == objects[idx[k]].name@
}

proof fn lemma_best_bounded(objects: Seq<Object>, r: nat, c: nat)
    requires
        r <= objects.len(),
    ensures
        best(objects, r, c) <= value_sum(objects, r),
    decreases r,
{
    if r > 0 && c > 0 {
        lemma_best_bounded(objects, (r - 1) as nat, c);
        if objects[r - 1].weight <= c {
            lemma_best_bounded(objects, (r - 1) as nat, (c - objects[r - 1].weight) as nat);
        }
    }
}

proof fn lemma_value_sum_monotone(objects: Seq<Object>, r: nat, s: nat)
    requires
        r <= s <= objects.len(),
    ensures
        value_sum(objects, r) <= value_sum(objects, s),
    decreases s - r,
{
    if r < s {
        lemma_value_sum_monotone(objects, r, (s - 1) as nat);
    }
}

/// Fills the table of best values for the objects and the knapsack.
pub fn create_dynamic_matrix(knapsack: Knapsack, objects: &Vec<Object>) -> (r: Array2D)
    requires
        objects@.len() < usize::MAX,
        knapsack.capacity < usize::MAX,
        value_sum(objects@, objects@.len()) <= usize::MAX,
    ensures
        r.rows == objects@.len() + 1,
        r.columns == knapsack.capacity + 1,
        r.array@.len() == r.rows,
        forall|i: int| 0 <= i < r.rows ==> (#[trigger] r.array@[i])@.len() == r.columns,
        forall|i: int, j: int|
            0 <= i < r.rows && 0 <= j < r.columns ==> r.array@[i]@[j] == best(
                objects@,
                i as nat,
                j as nat,
            ),
{
    let rows = objects.len() + 1;
    let columns = knapsack.capacity + 1;
    let mut matrix: Vec<Vec<usize>> = Vec::new();
    let mut first: Vec<usize> = Vec::new();
    let mut c: usize = 0;
    while c < columns
        invariant
            c <= columns,
            first@.len() == c,
            forall|j: int| 0 <= j < c ==> first@[j] == 0,
        decreases columns - c,
    {
        first.push(0);
        c = c + 1;
    }
    matrix.push(first);
    let mut row: usize = 1;
    while row < rows
        invariant
            1 <= row <= rows,
            rows == objects@.len() + 1,
            columns == knapsack.capacity + 1,
            value_sum(objects@, objects@.len()) <= usize::MAX,
            matrix@.len() == row,
            forall|i: int| 0 <= i < row ==> (#[trigger] matrix@[i])@.len() == columns,
            forall|i: int, j: int|
                0 <= i < row && 0 <= j < columns ==> matrix@[i]@[j] == best(
                    objects@,
                    i as nat,
                    j as nat,
                ),
        decreases rows - row,
    {
        let weight = objects[row - 1].weight;
        let value = objects[row - 1].value;
        let mut line: Vec<usize> = Vec::new();
        line.push(0);
        let mut column: usize = 1;
        while column < columns
            invariant
                1 <= row < rows,
                rows == objects@.len() + 1,
                1 <= column <= columns,
                matrix@.len() == row,
                weight == objects@[row - 1].weight,
                value == objects@[row - 1].value,
                value_sum(objects@, objects@.len()) <= usize::MAX,
                forall|i: int| 0 <= i < row ==> (#[trigger] matrix@[i])@.len() == columns,
                forall|i: int, j: int|
                    0 <= i < row && 0 <= j < columns ==> matrix@[i]@[j] == best(
                        objects@,
                        i as nat,
                        j as nat,
                    ),
                line@.len() == column,
                forall|j: int| 0 <= j < column ==> line@[j] == best(objects@, row as nat, j as nat),
            decreases columns - column,
        {
            let last_optimal = matrix[row - 1][column];
            if weight > column {
                line.push(last_optimal);
            } else {
                let other = matrix[row - 1][column - weight];
                proof {
                    lemma_best_bounded(objects@, row as nat, column as nat);
                    lemma_value_sum_monotone(objects@, row as nat, objects@.len());
                    lemma_best_bounded(objects@, (row - 1) as nat, (column - weight) as nat);
                    lemma_value_sum_monotone(objects@, (row - 1) as nat, objects@.len());
                    assert(value_sum(objects@, row as nat) == value_sum(objects@, (row - 1) as nat)
                        + value);
                }
                let with = other + value;
                if last_optimal >= with {
                    line.push(last_optimal);
                } else {
                    line.push(with);
                }
            }
            column = column + 1;
        }
        matrix.push(line);
        row = row + 1;
    }
    Array2D { rows, columns, array: matrix }
}

/// The objects of a best packing, read back from the filled table: the
/// last object first.
pub fn packed_objects(array: &Array2D, objects: &Vec<Object>) -> (r: Vec<Object>)
    requires
        objects@.len() >= 1,
        array.rows == objects@.len() + 1,
        array.columns >= 1,
        array.array@.len() == array.rows,
        forall|i: int| 0 <= i < array.rows ==> (#[trigger] array.array@[i])@.len() == array.columns,
        forall|i: int, j: int|
            0 <= i < array.rows && 0 <= j < array.columns ==> array.array@[i]@[j] == best(
                objects@,
                i as nat,
                j as nat,
            ),
    ensures
        value_of(r@) == best(objects@, objects@.len(), (array.columns - 1) as nat),
        weight_of(r@) <= array.columns - 1,
        exists|idx: Seq<int>| #[trigger] picks(objects@, r@, idx),
{
    let mut row = array.rows - 1;
    let mut column = array.columns - 1;
    let matrix = &array.array;
    let mut packed: Vec<Object> = Vec::new();
    let ghost mut idx: Seq<int> = Seq::empty();
    let ghost top = best(objects@, objects@.len(), (array.columns - 1) as nat);
    loop
        invariant
            1 <= row < array.rows,
            column < array.columns,
            array.rows == objects@.len() + 1,
            array.array@.len() == array.rows,
            matrix == &array.array,
            forall|i: int| 0 <= i < array.rows ==> (#[trigger] array.array@[i])@.len() == array.columns,
            forall|i: int, j: int|
                0 <= i < array.rows && 0 <= j < array.columns ==> array.array@[i]@[j] == best(
                    objects@,
                    i as nat,
                    j as nat,
                ),
            top == best(objects@, objects@.len(), (array.columns - 1) as nat),
            value_of(packed@) + best(objects@, row as nat, column as nat) == top,
            weight_of(packed@) + column == array.columns - 1,
            idx.len() == packed@.len(),
            forall|k: int|
                0 <= k < idx.len() ==> row <= #[trigger] idx[k] < objects@.len() && (k > 0 ==> idx[k]
                    < idx[k - 1]) && packed@[k].weight == objects@[idx[k]].weight
                    && packed@[k].value == objects@[idx[k]].value && packed@[k].id
                    == objects@[idx[k]].id && packed@[k].name@ == objects@[idx[k]].name@,
        decreases row,
    {
        if matrix[row][column] == matrix[row - 1][column] {
            row = row - 1;
        } else {
            let o = &objects[row - 1];
            let object = Object { weight: o.weight, value: o.value, name: o.name.clone(), id: o.id };
            let ghost prev = packed@;
            proof {
                assert(o.weight <= column);
            }
            column = column - o.weight;
            packed.push(object);
            proof {
                assert(packed@.drop_last() =~= prev);
                idx = idx.push(row - 1);
            }
            row = row - 1;
        }
        if matrix[row][column] == 0 || row == 0 {
            proof {
                if row == 0 {
                    assert(best(objects@, 0, column as nat) == 0);
                }
                assert(picks(objects@, packed@, idx));
            }
            return packed;
        }
    }
}

/// Packs the knapsack with a most valuable set of objects.
pub fn pack_a_ruck(knapsack: Knapsack, objects: &Vec<Object>) -> (r: Vec<Object>)
    requires
        1 <= objects@.len() < usize::MAX,
        knapsack.capacity < usize::MAX,
        value_sum(objects@, objects@.len()) <= usize::MAX,
    ensures
        value_of(r@) == best(objects@, objects@.len(), knapsack.capacity as nat),
        weight_of(r@) <= knapsack.capacity,
        exists|idx: Seq<int>| #[trigger] picks(objects@, r@, idx),
{
    let matrix = create_dynamic_matrix(knapsack, objects);
    packed_objects(&matrix, objects)
}

} // verus!
