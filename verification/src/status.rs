//! The states of lots, items and sales in the warehouse, their stored codes and their names.
use crate::text::text_is;
use vstd::prelude::*;

verus! {

/// A state code or name that no state has.
#[derive(Clone, Debug, PartialEq, Eq)]
pub enum InvalidStatus {
    Code(i32),
    Name(String),
}

/// The state of a lot.
#[derive(Clone, Copy, Debug, PartialEq, Eq, Structural)]
pub enum LotStatus {
    Unavailable,
    Planing,
    Transporting,
    Available,
    Outdated,
    Returned,
}

/// The state of an item.
#[derive(Clone, Copy, Debug, PartialEq, Eq, Structural)]
pub enum ItemStatus {
    Unavailable,
    Available,
    Damaged,
    Outdated,
    Saled,
    Returned,
}

/// The state of a sale.
#[derive(Clone, Copy, Debug, PartialEq, Eq, Structural)]
pub enum SaleStatus {
    Failed,
    Paid,
    Delivered,
    Returned,
    Refunded,
    Done,
}

impl LotStatus {
    /// The code stored for the state: its place in the declaration.
    pub open spec fn code_of(self) -> i32 {
        match self {
            LotStatus::Unavailable => 0,
            LotStatus::Planing => 1,
            LotStatus::Transporting => 2,
            LotStatus::Available => 3,
            LotStatus::Outdated => 4,
            LotStatus::Returned => 5,
        }
    }

    /// The state a stored code stands for.
    pub open spec fn of_code(value: i32) -> Option<LotStatus> {
        if value == 0 {
            Some(LotStatus::Unavailable)
        } else if value == 1 {
            Some(LotStatus::Planing)
        } else if value == 2 {
            Some(LotStatus::Transporting)
        } else if value == 3 {
            Some(LotStatus::Available)
        } else if value == 4 {
            Some(LotStatus::Outdated)
        } else if value == 5 {
            Some(LotStatus::Returned)
        } else {
            None
        }
    }

    /// The name shown for the state.
    pub open spec fn name_of(self) -> Seq<char> {
        match self {
            LotStatus::Unavailable => "Unavailable"@,
            LotStatus::Planing => "On planing"@,
            LotStatus::Transporting => "On transporting"@,
            LotStatus::Available => "Available"@,
            LotStatus::Outdated => "Outdated"@,
            LotStatus::Returned => "Being returned"@,
        }
    }

    /// The state a name stands for.
    pub open spec fn of_name(s: Seq<char>) -> Option<LotStatus> {
        if s == "Unavailable"@ {
            Some(LotStatus::Unavailable)
        } else if s == "On planing"@ {
            Some(LotStatus::Planing)
        } else if s == "On transporting"@ {
            Some(LotStatus::Transporting)
        } else if s == "Available"@ {
            Some(LotStatus::Available)
        } else if s == "Outdated"@ {
            Some(LotStatus::Outdated)
        } else if s == "Being returned"@ {
            Some(LotStatus::Returned)
        } else {
            None
        }
    }

    /// The code stored for the state.
    pub fn code(&self) -> (r: i32)
        ensures
            r == self.code_of(),
    {
        match self {
            LotStatus::Unavailable => 0,
            LotStatus::Planing => 1,
            LotStatus::Transporting => 2,
            LotStatus::Available => 3,
            LotStatus::Outdated => 4,
            LotStatus::Returned => 5,
        }
    }

    /// The state a stored code stands for; any other code is refused.
    pub fn try_from_code(value: i32) -> (r: Result<LotStatus, InvalidStatus>)
        ensures
            r matches Ok(s) ==> Self::of_code(value) == Some(s),
            r is Err ==> Self::of_code(value) is None && r == Err::<LotStatus, InvalidStatus>(InvalidStatus::Code(value)),
    {
        match value {
            0 => Ok(LotStatus::Unavailable),
            1 => Ok(LotStatus::Planing),
            2 => Ok(LotStatus::Transporting),
            3 => Ok(LotStatus::Available),
            4 => Ok(LotStatus::Outdated),
            5 => Ok(LotStatus::Returned),
            _ => Err(InvalidStatus::Code(value)),
        }
    }

    /// The name shown for the state.
    pub fn name(&self) -> (r: &'static str)
        ensures
            r@ == self.name_of(),
    {
        match self {
            LotStatus::Unavailable => "Unavailable",
            LotStatus::Planing => "On planing",
            LotStatus::Transporting => "On transporting",
            LotStatus::Available => "Available",
            LotStatus::Outdated => "Outdated",
            LotStatus::Returned => "Being returned",
        }
    }

    /// The state a name stands for; any other name is refused.
    pub fn try_from_name(value: &str) -> (r: Result<LotStatus, InvalidStatus>)
        ensures
            r matches Ok(s) ==> Self::of_name(value@) == Some(s),
            r matches Err(e) ==> Self::of_name(value@) is None && (e matches InvalidStatus::Name(t) && t@ == value@),
    {
        if text_is(value, "Unavailable") {
            Ok(LotStatus::Unavailable)
        } else if text_is(value, "On planing") {
            Ok(LotStatus::Planing)
        } else if text_is(value, "On transporting") {
            Ok(LotStatus::Transporting)
        } else if text_is(value, "Available") {
            Ok(LotStatus::Available)
        } else if text_is(value, "Outdated") {
            Ok(LotStatus::Outdated)
        } else if text_is(value, "Being returned") {
            Ok(LotStatus::Returned)
        } else {
            Err(InvalidStatus::Name(value.to_owned()))
        }
    }
}

impl ItemStatus {
    /// The code stored for the state: its place in the declaration.
    pub open spec fn code_of(self) -> i32 {
        match self {
            ItemStatus::Unavailable => 0,
            ItemStatus::Available => 1,
            ItemStatus::Damaged => 2,
            ItemStatus::Outdated => 3,
            ItemStatus::Saled => 4,
            ItemStatus::Returned => 5,
        }
    }

    /// The state a stored code stands for.
    pub open spec fn of_code(value: i32) -> Option<ItemStatus> {
        if value == 0 {
            Some(ItemStatus::Unavailable)
        } else if value == 1 {
            Some(ItemStatus::Available)
        } else if value == 2 {
            Some(ItemStatus::Damaged)
        } else if value == 3 {
            Some(ItemStatus::Outdated)
        } else if value == 4 {
            Some(ItemStatus::Saled)
        } else if value == 5 {
            Some(ItemStatus::Returned)
        } else {
            None
        }
    }

    /// The name shown for the state.
    pub open spec fn name_of(self) -> Seq<char> {
        match self {
            ItemStatus::Unavailable => "Unavailable"@,
            ItemStatus::Available => "Available"@,
            ItemStatus::Damaged => "Being damaged"@,
            ItemStatus::Outdated => "Outdated"@,
            ItemStatus::Saled => "Being saled"@,
            ItemStatus::Returned => "Being returned"@,
        }
    }

    /// The state a name stands for.
    pub open spec fn of_name(s: Seq<char>) -> Option<ItemStatus> {
        if s == "Unavailable"@ {
            Some(ItemStatus::Unavailable)
        } else if s == "Available"@ {
            Some(ItemStatus::Available)
        } else if s == "Being damaged"@ {
            Some(ItemStatus::Damaged)
        } else if s == "Being saled"@ {
            Some(ItemStatus::Saled)
        } else if s == "Being returned"@ {
            Some(ItemStatus::Returned)
        } else if s == "Outdated"@ {
            Some(ItemStatus::Outdated)
        } else {
            None
        }
    }

    /// The code stored for the state.
    pub fn code(&self) -> (r: i32)
        ensures
            r == self.code_of(),
    {
        match self {
            ItemStatus::Unavailable => 0,
            ItemStatus::Available => 1,
            ItemStatus::Damaged => 2,
            ItemStatus::Outdated => 3,
            ItemStatus::Saled => 4,
            ItemStatus::Returned => 5,
        }
    }

    /// The state a stored code stands for; any other code is refused.
    pub fn try_from_code(value: i32) -> (r: Result<ItemStatus, InvalidStatus>)
        ensures
            r matches Ok(s) ==> Self::of_code(value) == Some(s),
            r is Err ==> Self::of_code(value) is None && r == Err::<ItemStatus, InvalidStatus>(InvalidStatus::Code(value)),
    {
        match value {
            0 => Ok(ItemStatus::Unavailable),
            1 => Ok(ItemStatus::Available),
            2 => Ok(ItemStatus::Damaged),
            3 => Ok(ItemStatus::Outdated),
            4 => Ok(ItemStatus::Saled),
            5 => Ok(ItemStatus::Returned),
            _ => Err(InvalidStatus::Code(value)),
        }
    }

    /// The name shown for the state.
    pub fn name(&self) -> (r: &'static str)
        ensures
            r@ == self.name_of(),
    {
        match self {
            ItemStatus::Unavailable => "Unavailable",
            ItemStatus::Available => "Available",
            ItemStatus::Damaged => "Being damaged",
            ItemStatus::Saled => "Being saled",
            ItemStatus::Returned => "Being returned",
            ItemStatus::Outdated => "Outdated",
        }
    }

    /// The state a name stands for; any other name is refused.
    pub fn try_from_name(value: &str) -> (r: Result<ItemStatus, InvalidStatus>)
        ensures
            r matches Ok(s) ==> Self::of_name(value@) == Some(s),
            r matches Err(e) ==> Self::of_name(value@) is None && (e matches InvalidStatus::Name(t) && t@ == value@),
    {
        if text_is(value, "Unavailable") {
            Ok(ItemStatus::Unavailable)
        } else if text_is(value, "Available") {
            Ok(ItemStatus::Available)
        } else if text_is(value, "Being damaged") {
            Ok(ItemStatus::Damaged)
        } else if text_is(value, "Being saled") {
            Ok(ItemStatus::Saled)
        } else if text_is(value, "Being returned") {
            Ok(ItemStatus::Returned)
        } else if text_is(value, "Outdated") {
            Ok(ItemStatus::Outdated)
        } else {
            Err(InvalidStatus::Name(value.to_owned()))
        }
    }
}

impl SaleStatus {
    /// The code stored for the state: its place in the declaration.
    pub open spec fn code_of(self) -> i32 {
        match self {
            SaleStatus::Failed => 0,
            SaleStatus::Paid => 1,
            SaleStatus::Delivered => 2,
            SaleStatus::Returned => 3,
            SaleStatus::Refunded => 4,
            SaleStatus::Done => 5,
        }
    }

    /// The state a stored code is read back as. This table is not the inverse of
    /// `code_of`: it reads `1` as `Done` and shifts `Paid` to `Refunded` one place up.
    pub open spec fn of_code(value: i32) -> Option<SaleStatus> {
        if value == 0 {
            Some(SaleStatus::Failed)
        } else if value == 1 {
            Some(SaleStatus::Done)
        } else if value == 2 {
            Some(SaleStatus::Paid)
        } else if value == 3 {
            Some(SaleStatus::Delivered)
        } else if value == 4 {
            Some(SaleStatus::Returned)
        } else if value == 5 {
            Some(SaleStatus::Refunded)
        } else {
            None
        }
    }

    /// The name shown for the state.
    pub open spec fn name_of(self) -> Seq<char> {
        match self {
            SaleStatus::Failed => "Failed"@,
            SaleStatus::Done => "Done"@,
            SaleStatus::Paid => "Paid"@,
            SaleStatus::Delivered => "Delivered"@,
            SaleStatus::Returned => "Returned"@,
            SaleStatus::Refunded => "Refunded"@,
        }
    }

    /// The code stored for the state.
    pub fn code(&self) -> (r: i32)
        ensures
            r == self.code_of(),
    {
        match self {
            SaleStatus::Failed => 0,
            SaleStatus::Paid => 1,
            SaleStatus::Delivered => 2,
            SaleStatus::Returned => 3,
            SaleStatus::Refunded => 4,
            SaleStatus::Done => 5,
        }
    }

    /// The state a stored code is read back as; any other code is refused.
    pub fn try_from_code(value: i32) -> (r: Result<SaleStatus, InvalidStatus>)
        ensures
            r matches Ok(s) ==> Self::of_code(value) == Some(s),
            r is Err ==> Self::of_code(value) is None && r == Err::<SaleStatus, InvalidStatus>(InvalidStatus::Code(value)),
    {
        match value {
            0 => Ok(SaleStatus::Failed),
            1 => Ok(SaleStatus::Done),
            2 => Ok(SaleStatus::Paid),
            3 => Ok(SaleStatus::Delivered),
            4 => Ok(SaleStatus::Returned),
            5 => Ok(SaleStatus::Refunded),
            _ => Err(InvalidStatus::Code(value)),
        }
    }

    /// The name shown for the state.
    pub fn name(&self) -> (r: &'static str)
        ensures
            r@ == self.name_of(),
    {
        match self {
            SaleStatus::Failed => "Failed",
            SaleStatus::Done => "Done",
            SaleStatus::Paid => "Paid",
            SaleStatus::Delivered => "Delivered",
            SaleStatus::Returned => "Returned",
            SaleStatus::Refunded => "Refunded",
        }
    }
}

/// A lot state read back from its stored code is the state that was stored.
pub proof fn lemma_lot_code_round_trip(s: LotStatus)
    ensures
        LotStatus::of_code(s.code_of()) == Some(s),
{
}

/// A lot state read back from its name is the state that was named.
pub proof fn lemma_lot_name_round_trip(s: LotStatus)
    ensures
        LotStatus::of_name(s.name_of()) == Some(s),
{
    reveal_strlit("Unavailable");
    reveal_strlit("On planing");
    reveal_strlit("On transporting");
    reveal_strlit("Available");
    reveal_strlit("Outdated");
    reveal_strlit("Being returned");
    assert("Unavailable"@.len() == 11);
    assert("On planing"@.len() == 10);
    assert("On transporting"@.len() == 15);
    assert("Available"@.len() == 9);
    assert("Outdated"@.len() == 8);
    assert("Being returned"@.len() == 14);
}

/// An item state read back from its stored code is the state that was stored.
pub proof fn lemma_item_code_round_trip(s: ItemStatus)
    ensures
        ItemStatus::of_code(s.code_of()) == Some(s),
{
}

/// An item state read back from its name is the state that was named.
pub proof fn lemma_item_name_round_trip(s: ItemStatus)
    ensures
        ItemStatus::of_name(s.name_of()) == Some(s),
{
    reveal_strlit("Unavailable");
    reveal_strlit("Available");
    reveal_strlit("Being damaged");
    reveal_strlit("Being saled");
    reveal_strlit("Being returned");
    reveal_strlit("Outdated");
    assert("Unavailable"@.len() == 11);
    assert("Available"@.len() == 9);
    assert("Being damaged"@.len() == 13);
    assert("Being saled"@.len() == 11);
    assert("Being returned"@.len() == 14);
    assert("Outdated"@.len() == 8);
    assert("Unavailable"@[0] != "Being saled"@[0]);
}

/// A sale state read back from its stored code is the state that was stored, for the
/// failed state only: every other state comes back as a different one.
pub proof fn lemma_sale_code_round_trip(s: SaleStatus)
    requires
        s == SaleStatus::Failed,
    ensures
        SaleStatus::of_code(s.code_of()) == Some(s),
{
}

/// Each lot state has its own name, and so has each item state.
pub proof fn lemma_names_distinct(a: LotStatus, b: LotStatus, c: ItemStatus, d: ItemStatus)
    ensures
        a.name_of() == b.name_of() ==> a == b,
        c.name_of() == d.name_of() ==> c == d,
{
    lemma_lot_name_round_trip(a);
    lemma_lot_name_round_trip(b);
    lemma_item_name_round_trip(c);
    lemma_item_name_round_trip(d);
}

} // verus!
