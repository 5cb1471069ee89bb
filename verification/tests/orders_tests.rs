use systems_lab::orders::{tier_for, validate_order, CustomerTier, Order, OrderLine, ValidationError};

fn sample_order() -> Order {
    Order {
        customer_id: "CUST-001".to_string(),
        items: vec![
            OrderLine { product_id: "SKU-A".to_string(), name: "Widget".to_string(), quantity: 3 },
            OrderLine { product_id: "SKU-B".to_string(), name: "Gadget".to_string(), quantity: 1 },
        ],
    }
}

#[test]
fn test_validate_valid_order() {
    let order = sample_order();
    let result = validate_order(order.clone());
    assert!(result.is_ok());
    assert_eq!(result.unwrap().order, order);
}

#[test]
fn test_validate_empty_customer_id() {
    let mut order = sample_order();
    order.customer_id = String::new();
    assert_eq!(validate_order(order), Err(ValidationError::MissingCustomerId));
}

#[test]
fn test_validate_empty_order() {
    let order = Order { customer_id: "CUST-001".to_string(), items: vec![] };
    assert_eq!(validate_order(order), Err(ValidationError::EmptyOrder));
}

#[test]
fn validate_names_first_zero_quantity_line() {
    let mut order = sample_order();
    order.items[1].quantity = 0;
    order.items.push(OrderLine { product_id: "SKU-C".to_string(), name: "Gizmo".to_string(), quantity: 0 });
    assert_eq!(
        validate_order(order),
        Err(ValidationError::NegativeQuantity { product_id: "SKU-B".to_string() })
    );
}

#[test]
fn missing_customer_checked_before_empty_items() {
    let order = Order { customer_id: String::new(), items: vec![] };
    assert_eq!(validate_order(order), Err(ValidationError::MissingCustomerId));
}

#[test]
fn tier_from_first_letter() {
    assert_eq!(tier_for("GOLD-CUST-42"), CustomerTier::Gold);
    assert_eq!(tier_for("SILVER-7"), CustomerTier::Silver);
    assert_eq!(tier_for("CUST-001"), CustomerTier::Bronze);
    assert_eq!(tier_for(""), CustomerTier::Bronze);
    assert_eq!(tier_for("gold"), CustomerTier::Bronze);
}
