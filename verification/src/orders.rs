//! Order records.
//!
//! An order names the products it asks for and how many of each.

use vstd::prelude::*;

verus! {

/// One requested product and quantity.
#[derive(Debug, Clone, Copy, PartialEq, Eq, Structural)]
pub struct OrderItem {
    pub product_id: u32,
    pub quantity: u32,
}

/// An order: an identifier and the items it requests.
#[derive(Debug)]
pub struct Order {
    pub id: u32,
    pub items: Vec<OrderItem>,
}

impl Order {
    /// An order with the given identifier and items.
    pub fn new(id: u32, items: Vec<OrderItem>) -> (o: Order)
        ensures
            o.id == id,
            o.items@ == items@,
    {
        Order { id, items }
    }
}

} // verus!
