//! The versioned schema migrations and the manager that applies them.
//!
//! Two migrations exist. The first creates the products, sales and
//! sale line-item tables with two secondary indexes. The second creates
//! the categories table, seeds it with one row per distinct non-empty
//! legacy category label found on products (ignoring duplicates), adds the
//! `category_id` column to products, backfills that column by name lookup,
//! and indexes it.
//!
//! The manager applies registered migrations in ascending version order,
//! records each applied version in the store, and skips recorded versions,
//! so every migration runs at most once per store however often the hosting
//! process starts. A failing migration leaves the store at the last fully
//! applied version. Migrations are forward-only: no reverse script exists,
//! and a pending downgrade migration is refused rather than applied.

use vstd::prelude::*;

use crate::rows::CategoryRow;
use crate::rows::ProductRow;
use crate::rows::category_text;
use crate::rows::clone_product;
use crate::rows::has_category_text;
use crate::rows::id_of_name;
use crate::rows::id_of_name_from;
use crate::rows::name_present;
use crate::rows::product_with_category_id;
use crate::store::Schema;
use crate::store::Store;
use crate::store::StoreModel;
use crate::store::category_ids;
use crate::store::distinct_ids;
use crate::store::ids_below;
use crate::store::names_unique;
use crate::store::product_ids;

verus! {

/// The direction of a migration. Only `Up` scripts can be applied; the
/// schema defines no reverse scripts, so a pending `Down` migration is
/// refused.
#[derive(Clone, Copy, PartialEq, Eq, Structural, Debug)]
pub enum MigrationKind {
    Up,
    Down,
}

/// The schema-change unit a migration carries, named rather than spelled
/// out: its meaning is `script_effect`, its applicability `script_pre`.
#[derive(Clone, Copy, PartialEq, Eq, Structural, Debug)]
pub enum MigrationScript {
    CreateInitialTables,
    AddCategoriesTable,
}

/// Why registering or applying migrations failed.
#[derive(Clone, Copy, PartialEq, Eq, Structural, Debug)]
pub enum MigrationError {
    /// A registered version must exceed every version registered before it.
    VersionNotIncreasing,
    /// A pending migration is a downgrade, which the schema does not
    /// support.
    DowngradeUnsupported,
    /// A script addresses a table the store does not have.
    MissingTable,
    /// Seeding would use up the categories surrogate-key counter.
    IdSpaceExhausted,
}

/// One registered migration: a version, a human-readable description, the
/// schema-change unit, and its direction.
pub struct Migration {
    pub version: u64,
    pub description: String,
    pub script: MigrationScript,
    pub kind: MigrationKind,
}

/// What the initial-tables script does: create the products, sales and
/// sale line-item tables and the indexes on sale creation time and on the
/// line items' sale reference. Each object is created only if absent, so a
/// store that already has some of them is completed, never disturbed.
pub open spec fn apply_initial(m: StoreModel) -> StoreModel {
    StoreModel {
        schema: Schema {
            has_products: true,
            has_sales: true,
            has_sale_items: true,
            idx_sales_created_at: true,
            idx_sale_items_sale_id: true,
            ..m.schema
        },
        ..m
    }
}

/// One step of the category seed: if the product carries a non-empty
/// legacy category label that no category row has yet, a new category row
/// with that name, the next surrogate key and creation time `now` is
/// appended; otherwise nothing changes (insert-or-ignore).
pub open spec fn seed_step(cats: Seq<CategoryRow>, next: u64, p: ProductRow, now: u64) -> (
    Seq<CategoryRow>,
    u64,
) {
    if has_category_text(p) && !name_present(cats, category_text(p)) {
        (
            cats.push(
                CategoryRow {
                    id: next,
                    name: p.category->Some_0,
                    description: None,
                    color: None,
                    created_at: now,
                },
            ),
            (next + 1) as u64,
        )
    } else {
        (cats, next)
    }
}

/// The category seed: one `seed_step` per product row, in row order. The
/// result is the categories table and its surrogate-key counter after
/// seeding.
pub open spec fn seed_cats(
    products: Seq<ProductRow>,
    cats: Seq<CategoryRow>,
    next: u64,
    now: u64,
) -> (Seq<CategoryRow>, u64)
    decreases products.len(),
{
    if products.len() == 0 {
        (cats, next)
    } else {
        let prior = seed_cats(products.drop_last(), cats, next, now);
        seed_step(prior.0, prior.1, products.last(), now)
    }
}

/// The category backfill on one product row: a row with a non-empty legacy
/// category label has its `category_id` set to the id of the first
/// category row carrying that name; any other row is untouched, so a null
/// or empty label leaves `category_id` as it was.
pub open spec fn linked_product(p: ProductRow, cats: Seq<CategoryRow>) -> ProductRow {
    if has_category_text(p) {
        ProductRow { category_id: id_of_name(cats, category_text(p)), ..p }
    } else {
        p
    }
}

/// The category backfill over the whole products table.
pub open spec fn linked_products(products: Seq<ProductRow>, cats: Seq<CategoryRow>) -> Seq<
    ProductRow,
> {
    products.map_values(|p: ProductRow| linked_product(p, cats))
}

/// What the categories script does, as one atomic unit: create the
/// categories table, seed it from the products' legacy category labels,
/// add the `category_id` column to products, backfill the column by name
/// lookup, and index it.
pub open spec fn apply_categories(m: StoreModel, now: u64) -> StoreModel {
    let seeded = seed_cats(m.products, m.categories, m.next_category_id, now);
    StoreModel {
        schema: Schema {
            has_categories: true,
            products_have_category_id: true,
            idx_products_category_id: true,
            ..m.schema
        },
        products: linked_products(m.products, seeded.0),
        categories: seeded.0,
        next_category_id: seeded.1,
        ..m
    }
}

/// When a script can run against a store. The initial script always can;
/// the categories script reads and alters the products table, so that
/// table must exist, and seeding must not use up the surrogate-key
/// counter.
pub open spec fn script_pre(s: MigrationScript, m: StoreModel) -> bool {
    match s {
        MigrationScript::CreateInitialTables => true,
        MigrationScript::AddCategoriesTable => m.schema.has_products && m.next_category_id
            + m.products.len() <= u64::MAX,
    }
}

/// The error a script whose precondition fails is refused with.
pub open spec fn script_err(s: MigrationScript, m: StoreModel) -> MigrationError {
    if s is AddCategoriesTable && !m.schema.has_products {
        MigrationError::MissingTable
    } else {
        MigrationError::IdSpaceExhausted
    }
}

/// What a script that can run does to a store.
pub open spec fn script_effect(s: MigrationScript, m: StoreModel, now: u64) -> StoreModel {
    match s {
        MigrationScript::CreateInitialTables => apply_initial(m),
        MigrationScript::AddCategoriesTable => apply_categories(m, now),
    }
}

/// One migration against one store: a recorded version is skipped; a
/// downgrade is refused; a script whose precondition fails is refused and
/// leaves the store untouched; otherwise the script runs as one unit and
/// the version is recorded.
pub open spec fn run_one(mg: Migration, m: StoreModel, now: u64) -> (
    StoreModel,
    Option<MigrationError>,
) {
    if m.applied.contains(mg.version) {
        (m, None)
    } else if mg.kind is Down {
        (m, Some(MigrationError::DowngradeUnsupported))
    } else if !script_pre(mg.script, m) {
        (m, Some(script_err(mg.script, m)))
    } else {
        let m2 = script_effect(mg.script, m, now);
        (StoreModel { applied: m2.applied.push(mg.version), ..m2 }, None)
    }
}

/// A whole migration list against one store, in list order, stopping at
/// the first failure: the store is then left exactly as the migrations
/// before the failing one left it.
pub open spec fn run_result(migs: Seq<Migration>, m: StoreModel, now: u64) -> (
    StoreModel,
    Option<MigrationError>,
)
    decreases migs.len(),
{
    if migs.len() == 0 {
        (m, None)
    } else {
        let prior = run_result(migs.drop_last(), m, now);
        if prior.1 is Some {
            prior
        } else {
            run_one(migs.last(), prior.0, now)
        }
    }
}

/// What the category seed guarantees: the old rows stay in place, the
/// counter advances once per appended row and by at most one per product,
/// surrogate keys stay distinct and bounded, names stay unique, every
/// appended row carries `now`, a non-empty name drawn from some product's
/// legacy label, and a fresh key, and afterwards every non-empty legacy
/// label on a product has a category row carrying it.
pub proof fn lemma_seed_cats_props(
    products: Seq<ProductRow>,
    cats: Seq<CategoryRow>,
    next: u64,
    now: u64,
)
    requires
        distinct_ids(category_ids(cats)),
        ids_below(category_ids(cats), next),
        names_unique(cats),
        next >= 1,
        next + products.len() <= u64::MAX,
    ensures
        ({
            let r = seed_cats(products, cats, next, now);
            &&& next <= r.1
            &&& r.1 <= next + products.len()
            &&& cats.len() <= r.0.len()
            &&& r.0.len() - cats.len() == r.1 - next
            &&& (forall|i: int| 0 <= i < cats.len() ==> #[trigger] r.0[i] == cats[i])
            &&& distinct_ids(category_ids(r.0))
            &&& ids_below(category_ids(r.0), r.1)
            &&& names_unique(r.0)
            &&& (forall|i: int|
                cats.len() <= i < r.0.len() ==> (#[trigger] r.0[i]).created_at == now
                    && r.0[i].name@.len() > 0 && next <= r.0[i].id && exists|j: int|
                    0 <= j < products.len() && has_category_text(#[trigger] products[j])
                        && category_text(products[j]) == r.0[i].name@)
            &&& (forall|j: int|
                0 <= j < products.len() && has_category_text(#[trigger] products[j])
                    ==> name_present(r.0, category_text(products[j])))
        }),
    decreases products.len(),
{
    let r = seed_cats(products, cats, next, now);
    if products.len() == 0 {
    } else {
        let t = products.drop_last();
        lemma_seed_cats_props(t, cats, next, now);
        let rt = seed_cats(t, cats, next, now);
        let p = products.last();
        assert(forall|j: int| 0 <= j < t.len() ==> t[j] == products[j]);
        if has_category_text(p) && !name_present(rt.0, category_text(p)) {
            let row = CategoryRow {
                id: rt.1,
                name: p.category->Some_0,
                description: None,
                color: None,
                created_at: now,
            };
            assert(r.0 == rt.0.push(row));
            assert(category_ids(r.0) =~= category_ids(rt.0).push(rt.1));
            assert forall|i: int, j: int|
                0 <= i < j < category_ids(r.0).len() implies category_ids(r.0)[i] != category_ids(
                r.0,
            )[j] by {
                if j < category_ids(rt.0).len() {
                    assert(category_ids(r.0)[i] == category_ids(rt.0)[i]);
                    assert(category_ids(r.0)[j] == category_ids(rt.0)[j]);
                } else {
                    assert(category_ids(r.0)[i] == category_ids(rt.0)[i]);
                    assert(category_ids(rt.0)[i] < rt.1);
                }
            }
            assert forall|i: int| 0 <= i < category_ids(r.0).len() implies 1
                <= #[trigger] category_ids(r.0)[i] < r.1 by {
                if i < category_ids(rt.0).len() {
                    assert(category_ids(r.0)[i] == category_ids(rt.0)[i]);
                    assert(category_ids(rt.0)[i] < rt.1);
                }
            }
            assert forall|i: int, j: int| 0 <= i < j < r.0.len() implies r.0[i].name@
                != r.0[j].name@ by {
                if j < rt.0.len() {
                    assert(r.0[i] == rt.0[i] && r.0[j] == rt.0[j]);
                } else {
                    assert(r.0[i] == rt.0[i]);
                    assert(!name_present(rt.0, row.name@));
                }
            }
            assert(category_text(p) == row.name@);
            assert forall|i: int|
                cats.len() <= i < r.0.len() implies (#[trigger] r.0[i]).created_at == now
                && r.0[i].name@.len() > 0 && next <= r.0[i].id && exists|j: int|
                0 <= j < products.len() && has_category_text(#[trigger] products[j])
                    && category_text(products[j]) == r.0[i].name@ by {
                if i < rt.0.len() {
                    assert(r.0[i] == rt.0[i]);
                    let j = choose|j: int|
                        0 <= j < t.len() && has_category_text(#[trigger] t[j]) && category_text(
                            t[j],
                        ) == rt.0[i].name@;
                    assert(has_category_text(products[j]));
                } else {
                    assert(r.0[i] == row);
                    assert(has_category_text(products[products.len() - 1]));
                    assert(category_text(products[products.len() - 1]) == r.0[i].name@);
                }
            }
            assert forall|j: int|
                0 <= j < products.len() && has_category_text(#[trigger] products[j]) implies
                name_present(r.0, category_text(products[j])) by {
                if j < products.len() - 1 {
                    assert(has_category_text(t[j]));
                    assert(name_present(rt.0, category_text(t[j])));
                    let w = choose|w: int|
                        0 <= w < rt.0.len() && rt.0[w].name@ == category_text(t[j]);
                    assert(r.0[w].name@ == category_text(products[j]));
                } else {
                    assert(r.0[r.0.len() - 1].name@ == category_text(products[j]));
                }
            }
        } else {
            assert(r == rt);
            assert forall|j: int|
                0 <= j < products.len() && has_category_text(#[trigger] products[j]) implies
                name_present(r.0, category_text(products[j])) by {
                if j < products.len() - 1 {
                    assert(has_category_text(t[j]));
                    assert(name_present(rt.0, category_text(t[j])));
                    assert(category_text(t[j]) == category_text(products[j]));
                }
            }
        }
    }
}

/// The backfill changes only the `category_id` column: ids, skus, names
/// and every other column are those of the original rows.
pub proof fn lemma_linked_products_cols(products: Seq<ProductRow>, cats: Seq<CategoryRow>)
    ensures
        linked_products(products, cats).len() == products.len(),
        product_ids(linked_products(products, cats)) =~= product_ids(products),
        forall|i: int|
            0 <= i < products.len() ==> (#[trigger] linked_products(products, cats)[i]).sku
                == products[i].sku,
        forall|i: int|
            0 <= i < products.len() ==> (#[trigger] linked_products(products, cats)[i]).category
                == products[i].category,
{
    let r = linked_products(products, cats);
    assert forall|i: int|
        0 <= i < products.len() implies (#[trigger] r[i]).sku == products[i].sku && r[i].category
        == products[i].category && r[i].id == products[i].id by {
        assert(r[i] == linked_product(products[i], cats));
    }
    assert(product_ids(r) =~= product_ids(products));
}

/// The initial-tables script preserves the store invariant.
pub proof fn lemma_apply_initial_wf(m: StoreModel)
    requires
        m.wf(),
    ensures
        apply_initial(m).wf(),
{
}

/// The categories script preserves the store invariant.
pub proof fn lemma_apply_categories_wf(m: StoreModel, now: u64)
    requires
        m.wf(),
        script_pre(MigrationScript::AddCategoriesTable, m),
    ensures
        apply_categories(m, now).wf(),
{
    let seeded = seed_cats(m.products, m.categories, m.next_category_id, now);
    lemma_seed_cats_props(m.products, m.categories, m.next_category_id, now);
    lemma_linked_products_cols(m.products, seeded.0);
    let m2 = apply_categories(m, now);
    assert(m2.products == linked_products(m.products, seeded.0));
    assert forall|i: int, j: int| 0 <= i < j < m2.products.len() implies match (
        #[trigger] m2.products[i].sku,
        #[trigger] m2.products[j].sku,
    ) {
        (Some(a), Some(b)) => a@ != b@,
        _ => true,
    } by {
        assert(m2.products[i].sku == m.products[i].sku);
        assert(m2.products[j].sku == m.products[j].sku);
        assert(match (m.products[i].sku, m.products[j].sku) {
            (Some(a), Some(b)) => a@ != b@,
            _ => true,
        });
    }
    assert forall|i: int|
        0 <= i < m2.sale_items.len() implies product_ids(m2.products).contains(
        #[trigger] m2.sale_items[i].product_id,
    ) by {
        assert(product_ids(m.products).contains(m.sale_items[i].product_id));
    }
    assert forall|i: int|
        0 <= i < m2.products.len() implies match #[trigger] m2.products[i].category_id {
        Some(cid) => m2.schema.products_have_category_id && category_ids(m2.categories).contains(
            cid,
        ),
        None => true,
    } by {
        let p = m.products[i];
        assert(m2.products[i] == linked_product(p, seeded.0));
        if has_category_text(p) {
            crate::rows::lemma_id_of_name_present(seeded.0, category_text(p));
            match id_of_name(seeded.0, category_text(p)) {
                Some(cid) => {
                    let w = choose|w: int|
                        0 <= w < seeded.0.len() && seeded.0[w].name@ == category_text(p)
                            && seeded.0[w].id == cid;
                    assert(category_ids(seeded.0)[w] == cid);
                },
                None => {},
            }
        } else {
            match p.category_id {
                Some(cid) => {
                    assert(category_ids(m.categories).contains(cid));
                    let w = choose|w: int|
                        0 <= w < category_ids(m.categories).len() && category_ids(
                            m.categories,
                        )[w] == cid;
                    assert(seeded.0[w] == m.categories[w]);
                    assert(category_ids(seeded.0)[w] == cid);
                },
                None => {},
            }
        }
    }
}

/// Running one migration preserves the store invariant.
pub proof fn lemma_run_one_wf(mg: Migration, m: StoreModel, now: u64)
    requires
        m.wf(),
    ensures
        run_one(mg, m, now).0.wf(),
{
    if !m.applied.contains(mg.version) && !(mg.kind is Down) && script_pre(mg.script, m) {
        let m2 = script_effect(mg.script, m, now);
        match mg.script {
            MigrationScript::CreateInitialTables => lemma_apply_initial_wf(m),
            MigrationScript::AddCategoriesTable => lemma_apply_categories_wf(m, now),
        }
        let m3 = run_one(mg, m, now).0;
        assert(m3.applied =~= m.applied.push(mg.version));
        assert forall|i: int, j: int| 0 <= i < j < m3.applied.len() implies m3.applied[i]
            != m3.applied[j] by {
            if j == m.applied.len() {
                assert(m3.applied[i] == m.applied[i]);
                assert(!m.applied.contains(mg.version));
            }
        }
    }
}

/// Running the whole migration list preserves the store invariant.
pub proof fn lemma_run_result_wf(migs: Seq<Migration>, m: StoreModel, now: u64)
    requires
        m.wf(),
    ensures
        run_result(migs, m, now).0.wf(),
    decreases migs.len(),
{
    if migs.len() > 0 {
        lemma_run_result_wf(migs.drop_last(), m, now);
        let prior = run_result(migs.drop_last(), m, now);
        if prior.1 is None {
            lemma_run_one_wf(migs.last(), prior.0, now);
        }
    }
}

/// Once a prefix of the migration list has failed, the whole list gives
/// the same store and the same error: nothing after the failure runs.
pub proof fn lemma_run_error_extends(migs: Seq<Migration>, k: int, m: StoreModel, now: u64)
    requires
        0 <= k <= migs.len(),
        run_result(migs.subrange(0, k), m, now).1 is Some,
    ensures
        run_result(migs, m, now) == run_result(migs.subrange(0, k), m, now),
    decreases migs.len() - k,
{
    if k < migs.len() {
        assert(migs.subrange(0, k + 1).drop_last() =~= migs.subrange(0, k));
        assert(run_result(migs.subrange(0, k + 1), m, now) == run_result(
            migs.subrange(0, k),
            m,
            now,
        ));
        lemma_run_error_extends(migs, k + 1, m, now);
    } else {
        assert(migs.subrange(0, migs.len() as int) =~= migs);
    }
}

/// True when this migration version is recorded as applied.
fn version_recorded(applied: &Vec<u64>, v: u64) -> (b: bool)
    ensures
        b == applied@.contains(v),
{
    let mut i: usize = 0;
    while i < applied.len()
        invariant
            i <= applied.len(),
            forall|j: int| 0 <= j < i ==> applied@[j] != v,
        decreases applied.len() - i,
    {
        if applied[i] == v {
            return true;
        }
        i += 1;
    }
    false
}

/// The id of the first category row carrying the given name, or `None`.
fn find_category_id(cats: &Vec<CategoryRow>, name: &String) -> (r: Option<u64>)
    ensures
        r == id_of_name(cats@, name@),
{
    let mut i: usize = 0;
    while i < cats.len()
        invariant
            i <= cats.len(),
            id_of_name(cats@, name@) == id_of_name_from(cats@, name@, i as int),
        decreases cats.len() - i,
    {
        if cats[i].name == *name {
            return Some(cats[i].id);
        }
        i += 1;
    }
    None
}

/// The category backfill on one product row, against the seeded
/// categories table.
fn link_row(p: &ProductRow, cats: &Vec<CategoryRow>) -> (r: ProductRow)
    ensures
        r == linked_product(*p, cats@),
{
    match &p.category {
        Some(s) => {
            if !s.as_str().is_empty() {
                let cid = find_category_id(cats, s);
                product_with_category_id(p, cid)
            } else {
                clone_product(p)
            }
        },
        None => clone_product(p),
    }
}

/// Run the initial-tables script.
fn run_initial(store: &mut Store)
    ensures
        final(store)@ == apply_initial(old(store)@),
{
    store.schema.has_products = true;
    store.schema.has_sales = true;
    store.schema.has_sale_items = true;
    store.schema.idx_sales_created_at = true;
    store.schema.idx_sale_items_sale_id = true;
    proof {
        assert(store@ =~= apply_initial(old(store)@));
    }
}

/// Run the categories script as one unit: create the table, seed it, add
/// the column, backfill it, index it.
fn run_categories(store: &mut Store, now: u64)
    requires
        old(store)@.wf(),
        script_pre(MigrationScript::AddCategoriesTable, old(store)@),
    ensures
        final(store)@ == apply_categories(old(store)@, now),
{
    let ghost m0 = store@;
    store.schema.has_categories = true;
    let mut i: usize = 0;
    while i < store.products.len()
        invariant
            i <= store.products.len(),
            store@ =~= (StoreModel {
                schema: Schema { has_categories: true, ..m0.schema },
                categories: store@.categories,
                next_category_id: store@.next_category_id,
                ..m0
            }),
            (store@.categories, store@.next_category_id) == seed_cats(
                m0.products.subrange(0, i as int),
                m0.categories,
                m0.next_category_id,
                now,
            ),
            store@.next_category_id as int <= m0.next_category_id + i,
            m0.next_category_id + m0.products.len() <= u64::MAX,
        decreases store.products.len() - i,
    {
        proof {
            assert(m0.products.subrange(0, i as int + 1).drop_last() =~= m0.products.subrange(
                0,
                i as int,
            ));
            assert(m0.products.subrange(0, i as int + 1).last() == m0.products[i as int]);
        }
        match &store.products[i].category {
            Some(s) => {
                if !s.as_str().is_empty() {
                    if find_category_id(&store.categories, s).is_none() {
                        proof {
                            crate::rows::lemma_id_of_name_present(store@.categories, s@);
                        }
                        let row = CategoryRow {
                            id: store.next_category_id,
                            name: s.clone(),
                            description: None,
                            color: None,
                            created_at: now,
                        };
                        store.categories.push(row);
                        store.next_category_id = store.next_category_id + 1;
                    } else {
                        proof {
                            crate::rows::lemma_id_of_name_present(store@.categories, s@);
                        }
                    }
                }
            },
            None => {},
        }
        i += 1;
    }
    proof {
        assert(m0.products.subrange(0, m0.products.len() as int) =~= m0.products);
    }
    let ghost seeded_cats = store@.categories;
    store.schema.products_have_category_id = true;
    let mut backfilled: Vec<ProductRow> = Vec::new();
    let mut k: usize = 0;
    while k < store.products.len()
        invariant
            k <= store.products.len(),
            store@ =~= (StoreModel {
                schema: Schema {
                    has_categories: true,
                    products_have_category_id: true,
                    ..m0.schema
                },
                categories: seeded_cats,
                next_category_id: store@.next_category_id,
                ..m0
            }),
            store@.next_category_id == seed_cats(
                m0.products,
                m0.categories,
                m0.next_category_id,
                now,
            ).1,
            seeded_cats == seed_cats(m0.products, m0.categories, m0.next_category_id, now).0,
            backfilled@ =~= linked_products(m0.products.subrange(0, k as int), seeded_cats),
        decreases store.products.len() - k,
    {
        let linked = link_row(&store.products[k], &store.categories);
        backfilled.push(linked);
        proof {
            assert(m0.products.subrange(0, k as int + 1) =~= m0.products.subrange(
                0,
                k as int,
            ).push(m0.products[k as int]));
            assert(backfilled@ =~= linked_products(
                m0.products.subrange(0, k as int),
                seeded_cats,
            ).push(linked_product(m0.products[k as int], seeded_cats)));
            assert(backfilled@ =~= linked_products(
                m0.products.subrange(0, k as int + 1),
                seeded_cats,
            ));
        }
        k += 1;
    }
    store.products = backfilled;
    store.schema.idx_products_category_id = true;
    proof {
        assert(m0.products.subrange(0, m0.products.len() as int) =~= m0.products);
        assert(store@ =~= apply_categories(m0, now));
    }
}

/// The registered migrations are strictly ordered by version.
pub open spec fn versions_increasing(migs: Seq<Migration>) -> bool {
    forall|i: int, j: int| 0 <= i < j < migs.len() ==> migs[i].version < migs[j].version
}

/// The migration set of this schema: the initial tables as version one,
/// the categories normalization as version two, both forward-only.
pub open spec fn is_inventory_migration_set(migs: Seq<Migration>) -> bool {
    &&& migs.len() == 2
    &&& migs[0].version == 1
    &&& migs[0].kind is Up
    &&& migs[0].script is CreateInitialTables
    &&& migs[1].version == 2
    &&& migs[1].kind is Up
    &&& migs[1].script is AddCategoriesTable
}

/// The ordered, versioned list of schema-change units, and the guarantee
/// that each is applied to a store at most once, in ascending version
/// order, however often the hosting process starts.
pub struct SchemaManager {
    pub migrations: Vec<Migration>,
}

impl SchemaManager {
    /// The manager's invariant: registered versions strictly increase.
    pub open spec fn wf(self) -> bool {
        versions_increasing(self.migrations@)
    }

    /// A manager with no migrations registered.
    pub fn new() -> (mgr: SchemaManager)
        ensures
            mgr.migrations@ == Seq::<Migration>::empty(),
            mgr.wf(),
    {
        let mgr = SchemaManager { migrations: Vec::new() };
        mgr
    }

    /// Add one migration at the end of the list. The version must exceed
    /// every version registered before it; otherwise the migration is
    /// refused and the list is unchanged.
    pub fn register(&mut self, m: Migration) -> (r: Result<(), MigrationError>)
        requires
            old(self).wf(),
        ensures
            final(self).wf(),
            match r {
                Ok(()) => (old(self).migrations@.len() == 0 || old(
                    self,
                ).migrations@.last().version < m.version) && final(self).migrations@ == old(
                    self,
                ).migrations@.push(m),
                Err(e) => e == MigrationError::VersionNotIncreasing && old(
                    self,
                ).migrations@.len() > 0 && old(self).migrations@.last().version >= m.version
                    && final(self).migrations@ == old(self).migrations@,
            },
    {
        if self.migrations.len() > 0 {
            if self.migrations[self.migrations.len() - 1].version >= m.version {
                return Err(MigrationError::VersionNotIncreasing);
            }
        }
        let ghost migs0 = self.migrations@;
        self.migrations.push(m);
        proof {
            assert forall|i: int, j: int|
                0 <= i < j < self.migrations@.len() implies self.migrations@[i].version
                < self.migrations@[j].version by {
                if j == migs0.len() {
                    assert(self.migrations@[i] == migs0[i]);
                    if migs0.len() > 0 && i < migs0.len() - 1 {
                        assert(migs0[i].version < migs0[migs0.len() - 1].version);
                    }
                } else {
                    assert(self.migrations@[i] == migs0[i]);
                    assert(self.migrations@[j] == migs0[j]);
                }
            }
        }
        Ok(())
    }

    /// Bring a store up to date: run every registered migration whose
    /// version the store has not recorded, in list order, each as one
    /// atomic unit, recording its version after it runs. The store ends
    /// exactly as `run_result` describes: on success all registered
    /// migrations are applied or already recorded; on failure the store is
    /// left at the last fully applied migration and the error names the
    /// first failure.
    pub fn apply(&self, store: &mut Store, now: u64) -> (r: Result<(), MigrationError>)
        requires
            old(store)@.wf(),
        ensures
            final(store)@.wf(),
            ({
                let outcome = run_result(self.migrations@, old(store)@, now);
                final(store)@ == outcome.0 && (match r {
                    Ok(()) => outcome.1 is None,
                    Err(e) => outcome.1 == Some(e),
                })
            }),
    {
        let ghost m0 = store@;
        let mut i: usize = 0;
        while i < self.migrations.len()
            invariant
                i <= self.migrations.len(),
                m0 == old(store)@,
                store@.wf(),
                run_result(self.migrations@.subrange(0, i as int), m0, now) == (
                    store@,
                    None::<MigrationError>,
                ),
            decreases self.migrations.len() - i,
        {
            let ghost pre = store@;
            let ghost mg = self.migrations@[i as int];
            let mg_version = self.migrations[i].version;
            let mg_kind = self.migrations[i].kind;
            let mg_script = self.migrations[i].script;
            proof {
                assert(self.migrations@.subrange(0, i as int + 1).drop_last()
                    =~= self.migrations@.subrange(0, i as int));
                assert(self.migrations@.subrange(0, i as int + 1).last() == mg);
            }
            if !version_recorded(&store.applied, mg_version) {
                match mg_kind {
                    MigrationKind::Down => {
                        proof {
                            assert(run_result(self.migrations@.subrange(0, i as int + 1), m0, now)
                                == (pre, Some(MigrationError::DowngradeUnsupported)));
                            lemma_run_error_extends(self.migrations@, i as int + 1, m0, now);
                        }
                        return Err(MigrationError::DowngradeUnsupported);
                    },
                    MigrationKind::Up => {},
                }
                match mg_script {
                    MigrationScript::CreateInitialTables => {
                        run_initial(store);
                        proof {
                            lemma_apply_initial_wf(pre);
                        }
                    },
                    MigrationScript::AddCategoriesTable => {
                        if !store.schema.has_products {
                            proof {
                                assert(!script_pre(mg.script, pre));
                                assert(run_result(
                                    self.migrations@.subrange(0, i as int + 1),
                                    m0,
                                    now,
                                ) == (pre, Some(MigrationError::MissingTable)));
                                lemma_run_error_extends(self.migrations@, i as int + 1, m0, now);
                            }
                            return Err(MigrationError::MissingTable);
                        }
                        if store.products.len() as u64 > u64::MAX - store.next_category_id {
                            proof {
                                assert(!script_pre(mg.script, pre));
                                assert(run_result(
                                    self.migrations@.subrange(0, i as int + 1),
                                    m0,
                                    now,
                                ) == (pre, Some(MigrationError::IdSpaceExhausted)));
                                lemma_run_error_extends(self.migrations@, i as int + 1, m0, now);
                            }
                            return Err(MigrationError::IdSpaceExhausted);
                        }
                        proof {
                            assert(script_pre(mg.script, pre));
                        }
                        run_categories(store, now);
                        proof {
                            lemma_apply_categories_wf(pre, now);
                        }
                    },
                }
                store.applied.push(mg_version);
                proof {
                    let m2 = script_effect(mg.script, pre, now);
                    assert(store@ =~= (StoreModel { applied: m2.applied.push(mg.version), ..m2 }));
                    assert(run_one(mg, pre, now) == (store@, None::<MigrationError>));
                    lemma_run_one_wf(mg, pre, now);
                    assert(run_result(self.migrations@.subrange(0, i as int + 1), m0, now) == (
                        store@,
                        None::<MigrationError>,
                    ));
                }
            } else {
                proof {
                    assert(run_one(mg, pre, now) == (pre, None::<MigrationError>));
                    assert(run_result(self.migrations@.subrange(0, i as int + 1), m0, now) == (
                        store@,
                        None::<MigrationError>,
                    ));
                }
            }
            i += 1;
        }
        proof {
            assert(self.migrations@.subrange(0, self.migrations@.len() as int)
                =~= self.migrations@);
        }
        Ok(())
    }
}

/// The migration set of this schema, in registration order: version one
/// creates the initial tables, version two normalizes categories. Both are
/// forward-only.
pub fn default_migrations() -> (migs: Vec<Migration>)
    ensures
        is_inventory_migration_set(migs@),
        versions_increasing(migs@),
        migs@[0].description@ == "create_initial_tables"@,
        migs@[1].description@ == "add_categories_table"@,
{
    let mut migs: Vec<Migration> = Vec::new();
    migs.push(
        Migration {
            version: 1,
            description: "create_initial_tables".to_owned(),
            script: MigrationScript::CreateInitialTables,
            kind: MigrationKind::Up,
        },
    );
    migs.push(
        Migration {
            version: 2,
            description: "add_categories_table".to_owned(),
            script: MigrationScript::AddCategoriesTable,
            kind: MigrationKind::Up,
        },
    );
    migs
}

/// A manager with this schema's migration set registered.
pub fn inventory_manager() -> (mgr: SchemaManager)
    ensures
        mgr.wf(),
        is_inventory_migration_set(mgr.migrations@),
{
    let mgr = SchemaManager { migrations: default_migrations() };
    mgr
}

} // verus!
