//! The store-wide guarantees of the migration set, proved once and for
//! all: what a fresh store looks like after migration, that re-applying
//! the set changes nothing, and what the categories backfill does and does
//! not touch.

use vstd::prelude::*;

use crate::migrate::Migration;
use crate::migrate::MigrationError;
use crate::migrate::MigrationScript;
use crate::migrate::apply_categories;
use crate::migrate::is_inventory_migration_set;
use crate::migrate::lemma_run_result_wf;
use crate::migrate::lemma_seed_cats_props;
use crate::migrate::linked_product;
use crate::migrate::run_one;
use crate::migrate::run_result;
use crate::migrate::script_pre;
use crate::migrate::seed_cats;
use crate::rows::category_text;
use crate::rows::has_category_text;
use crate::rows::id_of_name;
use crate::rows::lemma_id_of_name_present;
use crate::rows::name_present;
use crate::store::StoreModel;
use crate::store::fresh_store;
use crate::store::full_schema;
use crate::store::names_unique;

verus! {

/// Applying the full migration set to a fresh store succeeds and yields
/// exactly the four tables and three indexes of the final schema, all
/// empty, with both versions recorded and the store invariant holding.
pub proof fn lemma_fresh_store_full_schema(migs: Seq<Migration>, now: u64)
    requires
        is_inventory_migration_set(migs),
    ensures
        ({
            let outcome = run_result(migs, fresh_store(), now);
            &&& outcome.1 is None
            &&& outcome.0.schema == full_schema()
            &&& outcome.0.products.len() == 0
            &&& outcome.0.sales.len() == 0
            &&& outcome.0.sale_items.len() == 0
            &&& outcome.0.categories.len() == 0
            &&& outcome.0.applied =~= seq![1u64, 2u64]
            &&& outcome.0.next_product_id == 1
            &&& outcome.0.next_sale_id == 1
            &&& outcome.0.next_sale_item_id == 1
            &&& outcome.0.next_category_id == 1
            &&& outcome.0.wf()
        }),
{
    let m0 = fresh_store();
    assert(migs.drop_last().drop_last() =~= Seq::<Migration>::empty());
    assert(migs.drop_last().len() == 1);
    assert(migs.drop_last()[0] == migs[0]);
    assert(migs.drop_last().last() == migs[0]);
    assert(run_result(migs.drop_last().drop_last(), m0, now) == (
        m0,
        None::<MigrationError>,
    ));
    assert(!m0.applied.contains(1u64));
    let step1 = run_one(migs[0], m0, now);
    assert(run_result(migs.drop_last(), m0, now) == step1);
    let m1 = step1.0;
    assert(step1.1 is None);
    assert(m1.applied =~= Seq::<u64>::empty().push(1u64));
    assert(!m1.applied.contains(2u64)) by {
        assert(forall|i: int| 0 <= i < m1.applied.len() ==> m1.applied[i] == 1u64);
    }
    assert(script_pre(migs[1].script, m1));
    let m2 = apply_categories(m1, now);
    assert(seed_cats(m1.products, m1.categories, m1.next_category_id, now) == (
        m1.categories,
        m1.next_category_id,
    ));
    assert(m2.products.len() == 0);
    assert(m2.categories.len() == 0);
    let outcome = run_result(migs, m0, now);
    assert(outcome == run_one(migs[1], m1, now));
    assert(outcome.0.applied =~= seq![1u64, 2u64]);
    assert(outcome.0.schema == full_schema());
    assert(m0.wf());
    lemma_run_result_wf(migs, m0, now);
}

/// One migration keeps every recorded version recorded.
proof fn lemma_run_one_keeps_applied(mg: Migration, m: StoreModel, now: u64)
    ensures
        forall|v: u64|
            m.applied.contains(v) ==> #[trigger] run_one(mg, m, now).0.applied.contains(v),
{
    let m1 = run_one(mg, m, now).0;
    assert forall|v: u64| m.applied.contains(v) implies m1.applied.contains(v) by {
        let k = choose|k: int| 0 <= k < m.applied.len() && m.applied[k] == v;
        assert(m1.applied[k] == v);
    }
}

/// A successful run records the version of every registered migration.
proof fn lemma_run_records_all(migs: Seq<Migration>, m: StoreModel, now: u64)
    requires
        run_result(migs, m, now).1 is None,
    ensures
        forall|k: int|
            0 <= k < migs.len() ==> run_result(migs, m, now).0.applied.contains(
                (#[trigger] migs[k]).version,
            ),
    decreases migs.len(),
{
    if migs.len() > 0 {
        let t = migs.drop_last();
        let prior = run_result(t, m, now);
        assert(prior.1 is None);
        lemma_run_records_all(t, m, now);
        let mg = migs.last();
        let res = run_one(mg, prior.0, now);
        lemma_run_one_keeps_applied(mg, prior.0, now);
        assert forall|k: int|
            0 <= k < migs.len() implies res.0.applied.contains((#[trigger] migs[k]).version) by {
            if k < migs.len() - 1 {
                assert(migs[k] == t[k]);
                assert(prior.0.applied.contains(t[k].version));
            } else {
                if prior.0.applied.contains(mg.version) {
                } else {
                    assert(res.0.applied == run_one(mg, prior.0, now).0.applied);
                    assert(res.0.applied.last() == mg.version);
                }
            }
        }
    }
}

/// A store that has recorded every registered version is left untouched:
/// every migration is skipped.
proof fn lemma_run_skips_recorded(migs: Seq<Migration>, m: StoreModel, now: u64)
    requires
        forall|k: int| 0 <= k < migs.len() ==> m.applied.contains((#[trigger] migs[k]).version),
    ensures
        run_result(migs, m, now) == (m, None::<MigrationError>),
    decreases migs.len(),
{
    if migs.len() > 0 {
        let t = migs.drop_last();
        assert(forall|k: int| 0 <= k < t.len() ==> t[k] == migs[k]);
        lemma_run_skips_recorded(t, m, now);
        assert(m.applied.contains(migs[migs.len() - 1].version));
        assert(run_one(migs.last(), m, now) == (m, None::<MigrationError>));
    }
}

/// Applying the migration set a second time is a no-op: once a run has
/// succeeded, running the same set again, at any later time, returns the
/// store unchanged.
pub proof fn lemma_reapply_is_noop(migs: Seq<Migration>, m: StoreModel, now1: u64, now2: u64)
    requires
        run_result(migs, m, now1).1 is None,
    ensures
        run_result(migs, run_result(migs, m, now1).0, now2) == (
            run_result(migs, m, now1).0,
            None::<MigrationError>,
        ),
{
    lemma_run_records_all(migs, m, now1);
    lemma_run_skips_recorded(migs, run_result(migs, m, now1).0, now2);
}

/// After the categories migration, every product with a non-empty legacy
/// category label points at a category row carrying exactly that label:
/// the row exists and the product's `category_id` equals its id.
pub proof fn lemma_backfill_links_product(m: StoreModel, now: u64, i: int)
    requires
        m.wf(),
        script_pre(MigrationScript::AddCategoriesTable, m),
        0 <= i < m.products.len(),
        has_category_text(m.products[i]),
    ensures
        ({
            let m2 = apply_categories(m, now);
            exists|w: int|
                0 <= w < m2.categories.len() && (#[trigger] m2.categories[w]).name@
                    == category_text(m.products[i]) && m2.products[i].category_id == Some(
                    m2.categories[w].id,
                )
        }),
{
    let seeded = seed_cats(m.products, m.categories, m.next_category_id, now);
    lemma_seed_cats_props(m.products, m.categories, m.next_category_id, now);
    let m2 = apply_categories(m, now);
    let label = category_text(m.products[i]);
    assert(name_present(seeded.0, label));
    lemma_id_of_name_present(seeded.0, label);
    assert(m2.products[i] == linked_product(m.products[i], seeded.0));
    assert(m2.products[i].category_id == id_of_name(seeded.0, label));
    let w = choose|w: int|
        0 <= w < seeded.0.len() && seeded.0[w].name@ == label && seeded.0[w].id == id_of_name(
            seeded.0,
            label,
        )->Some_0;
    assert(0 <= w < m2.categories.len() && m2.categories[w].name@ == label
        && m2.products[i].category_id == Some(m2.categories[w].id));
}

/// After the categories migration, category names are unique and every
/// non-empty legacy label on a product has a category row carrying it:
/// together, exactly one category row exists per label, however many
/// products share it.
pub proof fn lemma_backfill_names_unique(m: StoreModel, now: u64)
    requires
        m.wf(),
        script_pre(MigrationScript::AddCategoriesTable, m),
    ensures
        names_unique(apply_categories(m, now).categories),
        forall|i: int|
            0 <= i < m.products.len() && has_category_text(#[trigger] m.products[i])
                ==> name_present(apply_categories(m, now).categories, category_text(m.products[i])),
{
    lemma_seed_cats_props(m.products, m.categories, m.next_category_id, now);
}

/// The categories migration leaves unlabeled products alone: a product
/// whose legacy category is null or empty keeps its `category_id`, and no
/// category row is seeded for it — every row the seed adds carries a
/// non-empty label drawn from some product.
pub proof fn lemma_backfill_skips_unlabeled(m: StoreModel, now: u64)
    requires
        m.wf(),
        script_pre(MigrationScript::AddCategoriesTable, m),
    ensures
        forall|i: int|
            0 <= i < m.products.len() && !has_category_text(#[trigger] m.products[i])
                ==> apply_categories(m, now).products[i].category_id
                == m.products[i].category_id,
        forall|w: int|
            m.categories.len() <= w < apply_categories(m, now).categories.len()
                ==> (#[trigger] apply_categories(m, now).categories[w]).name@.len() > 0
                && exists|j: int|
                0 <= j < m.products.len() && has_category_text(#[trigger] m.products[j])
                    && category_text(m.products[j]) == apply_categories(
                    m,
                    now,
                ).categories[w].name@,
{
    let seeded = seed_cats(m.products, m.categories, m.next_category_id, now);
    lemma_seed_cats_props(m.products, m.categories, m.next_category_id, now);
    let m2 = apply_categories(m, now);
    assert forall|i: int|
        0 <= i < m.products.len() && !has_category_text(#[trigger] m.products[i]) implies
    m2.products[i].category_id == m.products[i].category_id by {
        assert(m2.products[i] == linked_product(m.products[i], seeded.0));
    }
}

} // verus!
