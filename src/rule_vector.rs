use vstd::prelude::*;

use crate::error::BridgeError;

verus! {

/// Number of anchor rows held by each slot.
pub const MAX_ANCHORS_PER_SLOT: usize = 16;

/// Number of elements in each anchor row.
pub const SLOT_WIDTH: usize = 32;

/// Number of values in one slot's row-major anchor buffer.
pub const SLOT_VALUES: usize = 512;

/// The anchors of one rule, per slot.
///
/// Each slot holds `MAX_ANCHORS_PER_SLOT` rows of `SLOT_WIDTH` values, row
/// after row, each value the IEEE-754 bit pattern of an `f32`. The count says
/// how many of the leading rows are valid; later rows are ignored.
#[derive(Debug, Clone, PartialEq, Eq)]
pub struct RuleVector {
    pub action_anchors: Vec<u32>,
    pub action_count: usize,
    pub resource_anchors: Vec<u32>,
    pub resource_count: usize,
    pub data_anchors: Vec<u32>,
    pub data_count: usize,
    pub risk_anchors: Vec<u32>,
    pub risk_count: usize,
}

/// The mathematical content of a `RuleVector`.
pub struct RuleVectorView {
    pub action_anchors: Seq<u32>,
    pub action_count: usize,
    pub resource_anchors: Seq<u32>,
    pub resource_count: usize,
    pub data_anchors: Seq<u32>,
    pub data_count: usize,
    pub risk_anchors: Seq<u32>,
    pub risk_count: usize,
}

impl View for RuleVector {
    type V = RuleVectorView;

    open spec fn view(&self) -> RuleVectorView {
        RuleVectorView {
            action_anchors: self.action_anchors@,
            action_count: self.action_count,
            resource_anchors: self.resource_anchors@,
            resource_count: self.resource_count,
            data_anchors: self.data_anchors@,
            data_count: self.data_count,
            risk_anchors: self.risk_anchors@,
            risk_count: self.risk_count,
        }
    }
}

impl RuleVectorView {
    /// Every slot buffer has exactly one value per row and column.
    pub open spec fn well_formed(self) -> bool {
        &&& self.action_anchors.len() == SLOT_VALUES
        &&& self.resource_anchors.len() == SLOT_VALUES
        &&& self.data_anchors.len() == SLOT_VALUES
        &&& self.risk_anchors.len() == SLOT_VALUES
    }
}

/// A buffer of `n` zero values.
fn zero_buffer(n: usize) -> (r: Vec<u32>)
    ensures
        r@ == Seq::new(n as nat, |i: int| 0u32),
{
    let mut r: Vec<u32> = Vec::with_capacity(n);
    let mut i: usize = 0;
    while i < n
        invariant
            i <= n,
            r@ == Seq::new(i as nat, |j: int| 0u32),
        decreases n - i,
    {
        r.push(0u32);
        i = i + 1;
    }
    r
}

impl Default for RuleVector {
    /// All anchors zero and all counts zero.
    fn default() -> (r: RuleVector)
        ensures
            r@.well_formed(),
            r@.action_count == 0,
            r@.resource_count == 0,
            r@.data_count == 0,
            r@.risk_count == 0,
            r@.action_anchors == Seq::new(SLOT_VALUES as nat, |i: int| 0u32),
            r@.resource_anchors == Seq::new(SLOT_VALUES as nat, |i: int| 0u32),
            r@.data_anchors == Seq::new(SLOT_VALUES as nat, |i: int| 0u32),
            r@.risk_anchors == Seq::new(SLOT_VALUES as nat, |i: int| 0u32),
    {
        RuleVector {
            action_anchors: zero_buffer(SLOT_VALUES),
            action_count: 0,
            resource_anchors: zero_buffer(SLOT_VALUES),
            resource_count: 0,
            data_anchors: zero_buffer(SLOT_VALUES),
            data_count: 0,
            risk_anchors: zero_buffer(SLOT_VALUES),
            risk_count: 0,
        }
    }
}

impl RuleVector {
    /// Whether every slot buffer has exactly `SLOT_VALUES` values.
    pub fn is_well_formed(&self) -> (r: bool)
        ensures
            r == self@.well_formed(),
    {
        self.action_anchors.len() == SLOT_VALUES && self.resource_anchors.len() == SLOT_VALUES
            && self.data_anchors.len() == SLOT_VALUES && self.risk_anchors.len()
            == SLOT_VALUES
    }

    /// An independent copy with the same content.
    pub fn duplicate(&self) -> (r: RuleVector)
        ensures
            r@ == self@,
    {
        RuleVector {
            action_anchors: self.action_anchors.clone(),
            action_count: self.action_count,
            resource_anchors: self.resource_anchors.clone(),
            resource_count: self.resource_count,
            data_anchors: self.data_anchors.clone(),
            data_count: self.data_count,
            risk_anchors: self.risk_anchors.clone(),
            risk_count: self.risk_count,
        }
    }
}

/// The rows of `rows`, one after the other.
pub open spec fn flatten_rows(rows: Seq<Seq<u32>>) -> Seq<u32>
    decreases rows.len(),
{
    if rows.len() == 0 {
        Seq::empty()
    } else {
        flatten_rows(rows.drop_last()) + rows.last()
    }
}

/// Whether every row holds exactly `SLOT_WIDTH` values.
pub open spec fn rows_have_width(rows: Seq<Seq<u32>>) -> bool {
    forall|i: int| 0 <= i < rows.len() ==> #[trigger] rows[i].len() == SLOT_WIDTH
}

/// Whether raw anchor rows and a count can become one slot of a `RuleVector`.
pub open spec fn anchor_block_accepted(rows: Seq<Seq<u32>>, count: usize) -> bool {
    &&& rows.len() == MAX_ANCHORS_PER_SLOT
    &&& count <= MAX_ANCHORS_PER_SLOT
    &&& rows_have_width(rows)
}

/// Turns raw anchor rows into one slot's row-major buffer and its count.
///
/// Succeeds exactly when there are `MAX_ANCHORS_PER_SLOT` rows, each of
/// `SLOT_WIDTH` values, and `count` is at most `MAX_ANCHORS_PER_SLOT`;
/// otherwise fails with `Serialization`.
pub fn convert_anchor_block(slot: &str, anchors: &Vec<Vec<u32>>, count: usize) -> (r: Result<
    (Vec<u32>, usize),
    BridgeError,
>)
    ensures
        anchor_block_accepted(anchors@.map_values(|row: Vec<u32>| row@), count) <==> r is Ok,
        r matches Ok((block, c)) ==> {
            &&& block@ == flatten_rows(anchors@.map_values(|row: Vec<u32>| row@))
            &&& block@.len() == SLOT_VALUES
            &&& c == count
        },
        r matches Err(e) ==> e == BridgeError::Serialization,
{
    let ghost rows = anchors@.map_values(|row: Vec<u32>| row@);
    if anchors.len() != MAX_ANCHORS_PER_SLOT {
        return Err(BridgeError::Serialization);
    }
    if count > MAX_ANCHORS_PER_SLOT {
        return Err(BridgeError::Serialization);
    }
    let mut block: Vec<u32> = Vec::with_capacity(SLOT_VALUES);
    let mut idx: usize = 0;
    while idx < anchors.len()
        invariant
            idx <= anchors.len() == MAX_ANCHORS_PER_SLOT,
            rows == anchors@.map_values(|row: Vec<u32>| row@),
            rows_have_width(rows.take(idx as int)),
            block@ == flatten_rows(rows.take(idx as int)),
            block@.len() == idx * SLOT_WIDTH,
        decreases anchors.len() - idx,
    {
        let row = &anchors[idx];
        if row.len() != SLOT_WIDTH {
            assert(rows[idx as int].len() != SLOT_WIDTH);
            assert(!rows_have_width(rows));
            return Err(BridgeError::Serialization);
        }
        let ghost before = block@;
        let mut c: usize = 0;
        while c < SLOT_WIDTH
            invariant
                c <= SLOT_WIDTH == row.len(),
                block@ == before + row@.take(c as int),
            decreases SLOT_WIDTH - c,
        {
            block.push(row[c]);
            c = c + 1;
            assert(block@ =~= before + row@.take(c as int));
        }
        assert(row@.take(SLOT_WIDTH as int) =~= row@);
        assert(rows.take(idx + 1).drop_last() =~= rows.take(idx as int));
        idx = idx + 1;
    }
    assert(rows.take(MAX_ANCHORS_PER_SLOT as int) =~= rows);
    Ok((block, count))
}

} // verus!
