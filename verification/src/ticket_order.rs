use vstd::prelude::*;

verus! {

/// One purchase event.
#[derive(Clone, Debug, PartialEq, Eq)]
pub struct TicketOrder {
    pub wallet: Vec<u8>,
    pub ticket_count: u32,
    pub message: Option<String>,
    pub is_public: bool,
}

/// An order record together with the order index it is keyed by within its
/// round.
#[derive(Clone, Debug, PartialEq, Eq)]
pub struct OrderEntry {
    pub index: u32,
    pub order: TicketOrder,
}

} // verus!
