use inventory_schema::migrate::Migration;
use inventory_schema::migrate::MigrationError;
use inventory_schema::migrate::MigrationKind;
use inventory_schema::migrate::MigrationScript;
use inventory_schema::migrate::SchemaManager;
use inventory_schema::migrate::default_migrations;
use inventory_schema::migrate::inventory_manager;
use inventory_schema::store::NewProduct;
use inventory_schema::store::Store;

fn product(name: &str, sku: Option<&str>, category: Option<&str>) -> NewProduct {
    NewProduct {
        name: name.to_owned(),
        description: None,
        sku: sku.map(|s| s.to_owned()),
        price: 100,
        cost: 40,
        quantity: 5,
        min_quantity: 1,
        category: category.map(|s| s.to_owned()),
        category_id: None,
    }
}

fn initial_only_manager() -> SchemaManager {
    let mut mgr = SchemaManager::new();
    let r = mgr.register(Migration {
        version: 1,
        description: "create_initial_tables".to_owned(),
        script: MigrationScript::CreateInitialTables,
        kind: MigrationKind::Up,
    });
    assert!(r.is_ok());
    mgr
}

#[test]
fn fresh_store_full_migration_creates_all_tables() {
    let mut store = Store::new();
    let mgr = inventory_manager();
    let r = mgr.apply(&mut store, 100);
    assert!(r.is_ok());
    assert!(store.schema.has_products);
    assert!(store.schema.has_sales);
    assert!(store.schema.has_sale_items);
    assert!(store.schema.has_categories);
    assert!(store.schema.products_have_category_id);
    assert!(store.schema.idx_sales_created_at);
    assert!(store.schema.idx_sale_items_sale_id);
    assert!(store.schema.idx_products_category_id);
    assert_eq!(store.products.len(), 0);
    assert_eq!(store.sales.len(), 0);
    assert_eq!(store.sale_items.len(), 0);
    assert_eq!(store.categories.len(), 0);
    assert_eq!(store.applied, vec![1, 2]);
}

#[test]
fn reapply_is_noop() {
    let mut store = Store::new();
    let mgr = inventory_manager();
    assert!(mgr.apply(&mut store, 100).is_ok());
    let r = store.insert_product(product("tea", Some("T-1"), Some("Beverages")), 110);
    assert!(r.is_ok());
    let products_before = store.products.len();
    let categories_before = store.categories.len();
    let applied_before = store.applied.clone();
    let schema_before = store.schema;
    let r2 = mgr.apply(&mut store, 200);
    assert!(r2.is_ok());
    assert_eq!(store.products.len(), products_before);
    assert_eq!(store.categories.len(), categories_before);
    assert_eq!(store.applied, applied_before);
    assert_eq!(store.schema, schema_before);
}

#[test]
fn backfill_links_existing_category() {
    let mut store = Store::new();
    assert!(initial_only_manager().apply(&mut store, 10).is_ok());
    let r = store.insert_product(product("cola", Some("C-1"), Some("Beverages")), 20);
    assert!(r.is_ok());
    let full = inventory_manager();
    assert!(full.apply(&mut store, 30).is_ok());
    assert_eq!(store.categories.len(), 1);
    assert_eq!(store.categories[0].name, "Beverages");
    assert_eq!(store.categories[0].created_at, 30);
    assert_eq!(store.categories[0].description, None);
    assert_eq!(store.categories[0].color, None);
    assert_eq!(store.products[0].category_id, Some(store.categories[0].id));
    assert_eq!(store.products[0].category.as_deref(), Some("Beverages"));
}

#[test]
fn shared_label_seeds_one_category() {
    let mut store = Store::new();
    assert!(initial_only_manager().apply(&mut store, 10).is_ok());
    assert!(store.insert_product(product("chips", None, Some("Snacks")), 11).is_ok());
    assert!(store.insert_product(product("nuts", None, Some("Snacks")), 12).is_ok());
    assert!(inventory_manager().apply(&mut store, 30).is_ok());
    let snack_rows: Vec<_> = store
        .categories
        .iter()
        .filter(|c| c.name == "Snacks")
        .collect();
    assert_eq!(snack_rows.len(), 1);
    let id = snack_rows[0].id;
    assert_eq!(store.products[0].category_id, Some(id));
    assert_eq!(store.products[1].category_id, Some(id));
}

#[test]
fn null_or_empty_category_skipped() {
    let mut store = Store::new();
    assert!(initial_only_manager().apply(&mut store, 10).is_ok());
    assert!(store.insert_product(product("plain", None, None), 11).is_ok());
    assert!(store.insert_product(product("blank", None, Some("")), 12).is_ok());
    assert!(inventory_manager().apply(&mut store, 30).is_ok());
    assert_eq!(store.categories.len(), 0);
    assert_eq!(store.products[0].category_id, None);
    assert_eq!(store.products[1].category_id, None);
}

#[test]
fn mixed_labels_seed_distinct_categories() {
    let mut store = Store::new();
    assert!(initial_only_manager().apply(&mut store, 10).is_ok());
    assert!(store.insert_product(product("cola", None, Some("Beverages")), 11).is_ok());
    assert!(store.insert_product(product("chips", None, Some("Snacks")), 12).is_ok());
    assert!(store.insert_product(product("tea", None, Some("Beverages")), 13).is_ok());
    assert!(inventory_manager().apply(&mut store, 30).is_ok());
    assert_eq!(store.categories.len(), 2);
    assert_eq!(store.categories[0].name, "Beverages");
    assert_eq!(store.categories[1].name, "Snacks");
    assert_eq!(store.products[0].category_id, Some(store.categories[0].id));
    assert_eq!(store.products[1].category_id, Some(store.categories[1].id));
    assert_eq!(store.products[2].category_id, Some(store.categories[0].id));
}

#[test]
fn downgrade_is_refused() {
    let mut mgr = SchemaManager::new();
    assert!(mgr
        .register(Migration {
            version: 1,
            description: "create_initial_tables".to_owned(),
            script: MigrationScript::CreateInitialTables,
            kind: MigrationKind::Up,
        })
        .is_ok());
    assert!(mgr
        .register(Migration {
            version: 2,
            description: "revert_categories".to_owned(),
            script: MigrationScript::AddCategoriesTable,
            kind: MigrationKind::Down,
        })
        .is_ok());
    let mut store = Store::new();
    let r = mgr.apply(&mut store, 10);
    assert_eq!(r, Err(MigrationError::DowngradeUnsupported));
    // the store stays at the last fully applied version
    assert!(store.schema.has_products);
    assert!(!store.schema.has_categories);
    assert_eq!(store.applied, vec![1]);
}

#[test]
fn categories_script_needs_products_table() {
    let mut mgr = SchemaManager::new();
    assert!(mgr
        .register(Migration {
            version: 2,
            description: "add_categories_table".to_owned(),
            script: MigrationScript::AddCategoriesTable,
            kind: MigrationKind::Up,
        })
        .is_ok());
    let mut store = Store::new();
    let r = mgr.apply(&mut store, 10);
    assert_eq!(r, Err(MigrationError::MissingTable));
    assert!(!store.schema.has_categories);
    assert_eq!(store.applied.len(), 0);
}

#[test]
fn seeding_needs_room_in_the_key_counter() {
    let mut store = Store::new();
    assert!(initial_only_manager().apply(&mut store, 10).is_ok());
    assert!(store.insert_product(product("cola", None, Some("Beverages")), 11).is_ok());
    store.next_category_id = u64::MAX;
    let r = inventory_manager().apply(&mut store, 30);
    assert_eq!(r, Err(MigrationError::IdSpaceExhausted));
    assert!(!store.schema.has_categories);
    assert_eq!(store.applied, vec![1]);
}

#[test]
fn register_rejects_non_increasing_version() {
    let mut mgr = SchemaManager::new();
    assert!(mgr
        .register(Migration {
            version: 2,
            description: "second".to_owned(),
            script: MigrationScript::AddCategoriesTable,
            kind: MigrationKind::Up,
        })
        .is_ok());
    let r = mgr.register(Migration {
        version: 2,
        description: "again".to_owned(),
        script: MigrationScript::AddCategoriesTable,
        kind: MigrationKind::Up,
    });
    assert_eq!(r, Err(MigrationError::VersionNotIncreasing));
    let r2 = mgr.register(Migration {
        version: 1,
        description: "late".to_owned(),
        script: MigrationScript::CreateInitialTables,
        kind: MigrationKind::Up,
    });
    assert_eq!(r2, Err(MigrationError::VersionNotIncreasing));
    assert_eq!(mgr.migrations.len(), 1);
}

#[test]
fn default_migrations_are_the_schema_history() {
    let migs = default_migrations();
    assert_eq!(migs.len(), 2);
    assert_eq!(migs[0].version, 1);
    assert_eq!(migs[0].description, "create_initial_tables");
    assert_eq!(migs[0].kind, MigrationKind::Up);
    assert_eq!(migs[0].script, MigrationScript::CreateInitialTables);
    assert_eq!(migs[1].version, 2);
    assert_eq!(migs[1].description, "add_categories_table");
    assert_eq!(migs[1].kind, MigrationKind::Up);
    assert_eq!(migs[1].script, MigrationScript::AddCategoriesTable);
}

#[test]
fn interrupted_history_is_completed_later() {
    // a store migrated under the first version alone is later completed by
    // the full set, and only the missing migration runs
    let mut store = Store::new();
    assert!(initial_only_manager().apply(&mut store, 10).is_ok());
    assert_eq!(store.applied, vec![1]);
    assert!(inventory_manager().apply(&mut store, 20).is_ok());
    assert_eq!(store.applied, vec![1, 2]);
    assert!(store.schema.has_categories);
}
