use vstd::prelude::*;
use vstd::string::StringSliceAdditionalSpecFns;

verus! {

/// Offsets of every newline byte of `bytes`, ascending.
pub open spec fn newline_offsets(bytes: Seq<u8>) -> Seq<usize>
    decreases bytes.len(),
{
    if bytes.len() == 0 {
        Seq::empty()
    } else {
        let prev = newline_offsets(bytes.drop_last());
        if bytes.last() == 10u8 {
            prev.push((bytes.len() - 1) as usize)
        } else {
            prev
        }
    }
}

/// Index of the first entry of `nl`, from `i` on, that lies strictly after
/// `pos`; `nl.len()` when there is none.
pub open spec fn first_after(nl: Seq<usize>, pos: int, i: int) -> int
    decreases nl.len() - i,
{
    if i >= nl.len() || i < 0 {
        nl.len() as int
    } else if nl[i] > pos {
        i
    } else {
        first_after(nl, pos, i + 1)
    }
}

/// The (line, column) pair of byte offset `pos` given the newline offsets `nl`.
pub open spec fn line_col(nl: Seq<usize>, pos: int) -> (int, int) {
    let k = first_after(nl, pos, 0);
    if k < nl.len() {
        if k == 0 {
            (1, pos + 1)
        } else {
            (k + 1, pos - nl[k - 1])
        }
    } else if nl.len() == 0 {
        (1, pos + 1)
    } else {
        (nl.len() as int, pos - nl.last())
    }
}

proof fn lemma_first_after_bounds(nl: Seq<usize>, pos: int, i: int)
    requires
        0 <= i <= nl.len(),
    ensures
        i <= first_after(nl, pos, i) <= nl.len(),
        forall|j: int| i <= j < first_after(nl, pos, i) ==> nl[j] <= pos,
        first_after(nl, pos, i) < nl.len() ==> nl[first_after(nl, pos, i)] > pos,
    decreases nl.len() - i,
{
    if i < nl.len() && nl[i] <= pos {
        lemma_first_after_bounds(nl, pos, i + 1);
    }
}

/// Offsets of the newline bytes of `code`, in ascending order.
pub fn parse_line_data(code: &str) -> (r: Vec<usize>)
    ensures
        r@ == newline_offsets(code.spec_bytes()),
{
    let bytes = code.as_bytes();
    let mut result: Vec<usize> = Vec::new();
    let mut i: usize = 0;
    while i < bytes.len()
        invariant
            0 <= i <= bytes@.len(),
            bytes@ == code.spec_bytes(),
            result@ == newline_offsets(bytes@.take(i as int)),
        decreases bytes@.len() - i,
    {
        proof {
            assert(bytes@.take(i as int + 1).drop_last() =~= bytes@.take(i as int));
        }
        if bytes[i] == 10u8 {
            result.push(i);
        }
        i = i + 1;
    }
    proof {
        assert(bytes@.take(i as int) =~= bytes@);
    }
    result
}

/// Line and column of byte offset `position`, given the newline offsets
/// computed by `parse_line_data`.
pub fn find_line_col(line_data: &[usize], position: usize) -> (r: (usize, usize))
    requires
        position < usize::MAX,
    ensures
        (r.0 as int, r.1 as int) == line_col(line_data@, position as int),
{
    proof {
        lemma_first_after_bounds(line_data@, position as int, 0);
    }
    let mut i: usize = 0;
    while i < line_data.len()
        invariant
            0 <= i <= line_data@.len(),
            first_after(line_data@, position as int, 0) == first_after(
                line_data@,
                position as int,
                i as int,
            ),
            forall|j: int| 0 <= j < i ==> line_data@[j] <= position,
        decreases line_data@.len() - i,
    {
        if line_data[i] > position {
            if i == 0 {
                return (1, position + 1);
            } else {
                return (i + 1, position - line_data[i - 1]);
            }
        }
        i = i + 1;
    }
    if line_data.len() == 0 {
        (1, position + 1)
    } else {
        (line_data.len(), position - line_data[line_data.len() - 1])
    }
}

} // verus!
