use inventory_schema::migrate::Migration;
use inventory_schema::migrate::MigrationKind;
use inventory_schema::migrate::MigrationScript;
use inventory_schema::migrate::SchemaManager;
use inventory_schema::migrate::inventory_manager;
use inventory_schema::store::NewProduct;
use inventory_schema::store::Store;
use inventory_schema::store::StoreError;

fn product(name: &str, sku: Option<&str>, category: Option<&str>) -> NewProduct {
    NewProduct {
        name: name.to_owned(),
        description: None,
        sku: sku.map(|s| s.to_owned()),
        price: 250,
        cost: 90,
        quantity: 7,
        min_quantity: 2,
        category: category.map(|s| s.to_owned()),
        category_id: None,
    }
}

fn migrated_store() -> Store {
    let mut store = Store::new();
    let r = inventory_manager().apply(&mut store, 100);
    assert!(r.is_ok());
    store
}

#[test]
fn operations_need_their_tables() {
    let mut store = Store::new();
    assert_eq!(
        store.insert_product(product("tea", None, None), 1),
        Err(StoreError::NoSuchTable)
    );
    assert_eq!(
        store.insert_sale(100, None, None, 1),
        Err(StoreError::NoSuchTable)
    );
    assert_eq!(
        store.insert_sale_item(1, 1, 1, 1),
        Err(StoreError::NoSuchTable)
    );
    assert_eq!(store.delete_sale(1), Err(StoreError::NoSuchTable));
    assert_eq!(store.delete_product(1), Err(StoreError::NoSuchTable));
}

#[test]
fn duplicate_sku_is_a_uniqueness_violation() {
    let mut store = migrated_store();
    let first = store.insert_product(product("tea", Some("SKU-1"), None), 10);
    assert!(first.is_ok());
    let second = store.insert_product(product("coffee", Some("SKU-1"), None), 11);
    assert_eq!(second, Err(StoreError::UniqueViolation));
    assert_eq!(store.products.len(), 1);
}

#[test]
fn absent_skus_do_not_collide() {
    let mut store = migrated_store();
    assert!(store.insert_product(product("tea", None, None), 10).is_ok());
    assert!(store.insert_product(product("coffee", None, None), 11).is_ok());
    assert!(store
        .insert_product(product("mate", Some("SKU-9"), None), 12)
        .is_ok());
    assert_eq!(store.products.len(), 3);
}

#[test]
fn product_rows_carry_their_columns() {
    let mut store = migrated_store();
    let id = store
        .insert_product(product("tea", Some("SKU-1"), Some("Beverages")), 42)
        .unwrap();
    assert_eq!(id, 1);
    let row = &store.products[0];
    assert_eq!(row.id, 1);
    assert_eq!(row.name, "tea");
    assert_eq!(row.sku.as_deref(), Some("SKU-1"));
    assert_eq!(row.price, 250);
    assert_eq!(row.cost, 90);
    assert_eq!(row.quantity, 7);
    assert_eq!(row.min_quantity, 2);
    assert_eq!(row.category.as_deref(), Some("Beverages"));
    assert_eq!(row.category_id, None);
    assert_eq!(row.created_at, 42);
    assert_eq!(row.updated_at, 42);
}

#[test]
fn category_reference_is_checked() {
    let mut store = Store::new();
    let mut early = product("tea", None, None);
    early.category_id = Some(1);
    // before any migration the products table itself is missing
    assert_eq!(store.insert_product(early, 1), Err(StoreError::NoSuchTable));
    let mut store = migrated_store();
    let mut dangling = product("tea", None, None);
    dangling.category_id = Some(77);
    assert_eq!(
        store.insert_product(dangling, 2),
        Err(StoreError::ForeignKeyViolation)
    );
    assert_eq!(store.products.len(), 0);
}

#[test]
fn category_id_needs_the_migrated_column() {
    let mut mgr = SchemaManager::new();
    assert!(mgr
        .register(Migration {
            version: 1,
            description: "create_initial_tables".to_owned(),
            script: MigrationScript::CreateInitialTables,
            kind: MigrationKind::Up,
        })
        .is_ok());
    let mut store = Store::new();
    assert!(mgr.apply(&mut store, 1).is_ok());
    let mut p = product("tea", None, None);
    p.category_id = Some(1);
    assert_eq!(store.insert_product(p, 2), Err(StoreError::NoSuchColumn));
}

#[test]
fn exhausted_key_counter_is_refused() {
    let mut store = migrated_store();
    store.next_product_id = u64::MAX;
    assert_eq!(
        store.insert_product(product("tea", None, None), 1),
        Err(StoreError::IdSpaceExhausted)
    );
}

#[test]
fn sale_items_reference_existing_rows() {
    let mut store = migrated_store();
    let product_id = store.insert_product(product("tea", None, None), 10).unwrap();
    let sale_id = store.insert_sale(500, Some("cash".to_owned()), None, 20).unwrap();
    assert_eq!(
        store.insert_sale_item(sale_id + 1, product_id, 1, 250),
        Err(StoreError::ForeignKeyViolation)
    );
    assert_eq!(
        store.insert_sale_item(sale_id, product_id + 1, 1, 250),
        Err(StoreError::ForeignKeyViolation)
    );
    assert_eq!(
        store.insert_sale_item(sale_id, product_id, 0, 250),
        Err(StoreError::CheckViolation)
    );
    assert!(store.insert_sale_item(sale_id, product_id, 2, 250).is_ok());
}

#[test]
fn sale_rows_carry_their_columns() {
    let mut store = migrated_store();
    let id = store
        .insert_sale(680, Some("card".to_owned()), Some("walk-in".to_owned()), 55)
        .unwrap();
    assert_eq!(id, 1);
    let row = &store.sales[0];
    assert_eq!(row.id, 1);
    assert_eq!(row.total_amount, 680);
    assert_eq!(row.payment_method.as_deref(), Some("card"));
    assert_eq!(row.notes.as_deref(), Some("walk-in"));
    assert_eq!(row.created_at, 55);
}

#[test]
fn subtotal_is_quantity_times_unit_price() {
    let mut store = migrated_store();
    let product_id = store.insert_product(product("tea", None, None), 10).unwrap();
    let sale_id = store.insert_sale(750, None, None, 20).unwrap();
    let item_id = store.insert_sale_item(sale_id, product_id, 3, 250).unwrap();
    let row = &store.sale_items[0];
    assert_eq!(row.id, item_id);
    assert_eq!(row.quantity, 3);
    assert_eq!(row.unit_price, 250);
    assert_eq!(row.subtotal, 750);
}

#[test]
fn oversized_subtotal_is_refused() {
    let mut store = migrated_store();
    let product_id = store.insert_product(product("tea", None, None), 10).unwrap();
    let sale_id = store.insert_sale(1, None, None, 20).unwrap();
    assert_eq!(
        store.insert_sale_item(sale_id, product_id, u64::MAX, 2),
        Err(StoreError::AmountOverflow)
    );
    assert_eq!(store.sale_items.len(), 0);
}

#[test]
fn deleting_a_sale_cascades_to_its_items() {
    let mut store = migrated_store();
    let product_id = store.insert_product(product("tea", None, None), 10).unwrap();
    let first_sale = store.insert_sale(500, None, None, 20).unwrap();
    let second_sale = store.insert_sale(250, None, None, 21).unwrap();
    store.insert_sale_item(first_sale, product_id, 1, 250).unwrap();
    store.insert_sale_item(first_sale, product_id, 1, 250).unwrap();
    store.insert_sale_item(second_sale, product_id, 1, 250).unwrap();
    assert_eq!(store.sale_items.len(), 3);
    assert!(store.delete_sale(first_sale).is_ok());
    assert_eq!(store.sales.len(), 1);
    assert_eq!(store.sales[0].id, second_sale);
    assert_eq!(store.sale_items.len(), 1);
    assert_eq!(store.sale_items[0].sale_id, second_sale);
}

#[test]
fn deleting_a_referenced_product_is_refused() {
    let mut store = migrated_store();
    let kept = store.insert_product(product("tea", None, None), 10).unwrap();
    let loose = store.insert_product(product("coffee", None, None), 11).unwrap();
    let sale = store.insert_sale(250, None, None, 20).unwrap();
    store.insert_sale_item(sale, kept, 1, 250).unwrap();
    assert_eq!(
        store.delete_product(kept),
        Err(StoreError::ForeignKeyViolation)
    );
    assert_eq!(store.products.len(), 2);
    assert!(store.delete_product(loose).is_ok());
    assert_eq!(store.products.len(), 1);
    assert_eq!(store.products[0].id, kept);
}

#[test]
fn deleting_absent_rows_is_a_noop() {
    let mut store = migrated_store();
    assert!(store.delete_sale(99).is_ok());
    assert!(store.delete_product(99).is_ok());
    assert_eq!(store.sales.len(), 0);
    assert_eq!(store.products.len(), 0);
}

#[test]
fn surrogate_keys_advance_and_never_repeat() {
    let mut store = migrated_store();
    let a = store.insert_product(product("tea", None, None), 10).unwrap();
    let b = store.insert_product(product("coffee", None, None), 11).unwrap();
    assert!(store.delete_product(b).is_ok());
    let c = store.insert_product(product("mate", None, None), 12).unwrap();
    assert_eq!(a, 1);
    assert_eq!(b, 2);
    assert_eq!(c, 3);
}
