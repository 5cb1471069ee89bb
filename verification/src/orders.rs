//! The pure core of order processing: validating an order and choosing a
//! customer's tier from its id. Prices and discounts are applied outside.
use vstd::prelude::*;
use crate::text::chars_of;

verus! {

/// One line of an order as validation sees it.
#[derive(Debug, Clone, PartialEq)]
pub struct OrderLine {
    pub product_id: String,
    pub name: String,
    pub quantity: u32,
}

/// An order: who placed it and its lines.
#[derive(Debug, Clone, PartialEq)]
pub struct Order {
    pub customer_id: String,
    pub items: Vec<OrderLine>,
}

/// An order that passed validation.
#[derive(Debug, Clone, PartialEq)]
pub struct ValidatedOrder {
    pub order: Order,
}

/// Why an order was refused.
#[derive(Debug, Clone, PartialEq)]
pub enum ValidationError {
    EmptyOrder,
    MissingCustomerId,
    NegativeQuantity { product_id: String },
}

/// A customer's loyalty tier.
#[derive(Debug, Clone, Copy, PartialEq, Eq, Structural)]
pub enum CustomerTier {
    Gold,
    Silver,
    Bronze,
}

/// Whether line `k` is the first line of `items` with quantity zero.
pub open spec fn first_zero_quantity(items: Seq<OrderLine>, k: int) -> bool {
    &&& 0 <= k < items.len()
    &&& items[k].quantity == 0
    &&& forall|j: int| 0 <= j < k ==> (#[trigger] items[j]).quantity != 0
}

/// Checks, in this order, that the customer id is not empty, that there is
/// at least one line, and that no line has quantity zero; the first failed
/// check is the error, naming the first such line.
pub fn validate_order(order: Order) -> (r: Result<ValidatedOrder, ValidationError>)
    ensures
        order.customer_id@.len() == 0 ==> r == Err::<ValidatedOrder, ValidationError>(
            ValidationError::MissingCustomerId,
        ),
        order.customer_id@.len() > 0 && order.items@.len() == 0 ==> r == Err::<
            ValidatedOrder,
            ValidationError,
        >(ValidationError::EmptyOrder),
        order.customer_id@.len() > 0 && order.items@.len() > 0 ==> (r is Ok <==> forall|i: int|
            0 <= i < order.items@.len() ==> (#[trigger] order.items@[i]).quantity != 0),
        r is Ok ==> r->Ok_0.order == order,
        order.customer_id@.len() > 0 && order.items@.len() > 0 && (exists|k: int|
            first_zero_quantity(order.items@, k)) ==> (r matches Err(
            ValidationError::NegativeQuantity { product_id },
        ) && exists|k: int|
            first_zero_quantity(order.items@, k) && product_id@ == order.items@[k].product_id@),
        r matches Err(ValidationError::NegativeQuantity { product_id }) ==> exists|k: int|
            first_zero_quantity(order.items@, k) && product_id@ == order.items@[k].product_id@,
{
    if order.customer_id.as_str().is_empty() {
        return Err(ValidationError::MissingCustomerId);
    }
    if order.items.len() == 0 {
        return Err(ValidationError::EmptyOrder);
    }
    let mut i: usize = 0;
    while i < order.items.len()
        invariant
            i <= order.items@.len(),
            order.customer_id@.len() > 0,
            order.items@.len() > 0,
            forall|j: int| 0 <= j < i ==> (#[trigger] order.items@[j]).quantity != 0,
        decreases order.items@.len() - i,
    {
        if order.items[i].quantity == 0 {
            let product_id = order.items[i].product_id.clone();
            assert(first_zero_quantity(order.items@, i as int));
            return Err(ValidationError::NegativeQuantity { product_id });
        }
        i = i + 1;
    }
    Ok(ValidatedOrder { order })
}

/// The tier a customer id stands for: gold for ids starting with `G`,
/// silver for `S`, bronze otherwise.
pub open spec fn tier_of(id: Seq<char>) -> CustomerTier {
    if id.len() > 0 && id[0] == 'G' {
        CustomerTier::Gold
    } else if id.len() > 0 && id[0] == 'S' {
        CustomerTier::Silver
    } else {
        CustomerTier::Bronze
    }
}

/// The customer's tier, read from the first letter of its id.
pub fn tier_for(customer_id: &str) -> (r: CustomerTier)
    ensures
        r == tier_of(customer_id@),
{
    let chars = chars_of(customer_id);
    if chars.len() > 0 && chars[0] == 'G' {
        CustomerTier::Gold
    } else if chars.len() > 0 && chars[0] == 'S' {
        CustomerTier::Silver
    } else {
        CustomerTier::Bronze
    }
}

} // verus!
