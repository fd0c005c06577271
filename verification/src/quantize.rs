use vstd::prelude::*;

verus! {

/// Largest feature value that binary quantisation accepts.
pub const MAX_MODEL: u64 = 16;

/// How the features of a data set are coarsened before they are used.
#[derive(Debug, Clone, Copy, PartialEq, Eq, Structural)]
pub enum QuantizeType {
    /// Features are used as they are.
    Plain,
    /// Features below half of `MAX_MODEL` become 0, the others 1.
    Binary,
    /// Features below a third of `MAX_MODEL`, rounded up, become 0, those
    /// below two thirds become 1, the others 2.
    Ternary,
}

/// A feature after quantisation.
pub open spec fn spec_quantize(x: u64, kind: QuantizeType) -> u64 {
    match kind {
        QuantizeType::Plain => x,
        QuantizeType::Binary => if x < 8 {
            0
        } else {
            1
        },
        QuantizeType::Ternary => if x < 6 {
            0
        } else if x < 12 {
            1
        } else {
            2
        },
    }
}

pub fn quantize(x: u64, kind: QuantizeType) -> (y: u64)
    ensures
        y == spec_quantize(x, kind),
{
    match kind {
        QuantizeType::Plain => x,
        QuantizeType::Binary => {
            let threshold = MAX_MODEL / 2;
            if x < threshold {
                0
            } else {
                1
            }
        },
        QuantizeType::Ternary => {
            let third: u64 = 6;
            if x < third {
                0
            } else if x < 2 * third {
                1
            } else {
                2
            }
        },
    }
}

/// Binary quantisation refuses a row one of whose features, that is, of
/// its entries but the last, is above `MAX_MODEL`.
pub open spec fn refused(row: Seq<u64>, kind: QuantizeType) -> bool {
    kind == QuantizeType::Binary && exists|i: int| 0 <= i < row.len() - 1 && #[trigger] row[i] > MAX_MODEL
}

/// A row of a data set after quantisation: every entry but the last is
/// quantised; the last entry is the label and stays.
pub open spec fn spec_quantize_row(row: Seq<u64>, kind: QuantizeType) -> Seq<u64> {
    Seq::new(
        row.len(),
        |i: int|
            if i == row.len() - 1 {
                row[i]
            } else {
                spec_quantize(row[i], kind)
            },
    )
}

/// Quantises the features of a row. `None` exactly where the row is refused.
pub fn quantize_row(row: &Vec<u64>, kind: QuantizeType) -> (out: Option<Vec<u64>>)
    ensures
        out is None <==> refused(row@, kind),
        out matches Some(v) ==> v@ == spec_quantize_row(row@, kind),
{
    let mut out: Vec<u64> = Vec::new();
    let mut i: usize = 0;
    while i < row.len()
        invariant
            i <= row@.len(),
            out@.len() == i,
            forall|j: int|
                0 <= j < i ==> out@[j] == if j == row@.len() - 1 {
                    row@[j]
                } else {
                    spec_quantize(row@[j], kind)
                },
            kind == QuantizeType::Binary ==> forall|j: int|
                0 <= j < i && j < row@.len() - 1 ==> #[trigger] row@[j] <= MAX_MODEL,
        decreases row.len() - i,
    {
        if i + 1 == row.len() {
            out.push(row[i]);
        } else {
            let is_binary = match kind {
                QuantizeType::Binary => true,
                _ => false,
            };
            if is_binary && row[i] > MAX_MODEL {
                return None;
            }
            out.push(quantize(row[i], kind));
        }
        i += 1;
    }
    assert(out@ =~= spec_quantize_row(row@, kind));
    Some(out)
}

} // verus!
