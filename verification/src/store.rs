//! The persistent store: which schema objects exist, the rows of the four
//! tables, the recorded migration versions, and the row-level operations
//! with their constraints.
//!
//! Referential integrity is enforced: the store refuses to delete a product
//! that a sale line item still references, and refuses inserts that would
//! break a unique or foreign-key constraint. This matches a store opened
//! with foreign-key enforcement switched on, which is how the hosting
//! application's database runtime opens it.

use vstd::prelude::*;

use crate::rows::CategoryRow;
use crate::rows::ProductRow;
use crate::rows::SaleItemRow;
use crate::rows::SaleRow;
use crate::rows::clone_product;
use crate::rows::clone_sale;

verus! {

/// Which tables and secondary indexes exist, and whether the products
/// table already carries the `category_id` column that the categories
/// migration adds.
#[derive(Clone, Copy, PartialEq, Eq, Structural, Debug)]
pub struct Schema {
    pub has_products: bool,
    pub has_sales: bool,
    pub has_sale_items: bool,
    pub has_categories: bool,
    pub products_have_category_id: bool,
    pub idx_sales_created_at: bool,
    pub idx_sale_items_sale_id: bool,
    pub idx_products_category_id: bool,
}

/// An error from a row-level operation, mirroring the constraint that was
/// violated.
#[derive(Clone, Copy, PartialEq, Eq, Structural, Debug)]
pub enum StoreError {
    /// The addressed table has not been created yet.
    NoSuchTable,
    /// The row names a column the table does not have yet.
    NoSuchColumn,
    /// The row repeats a value that a unique constraint forbids repeating.
    UniqueViolation,
    /// The row references a parent row that does not exist, or a parent row
    /// is still referenced and so cannot be deleted.
    ForeignKeyViolation,
    /// A required check failed: a sale line item needs a positive quantity.
    CheckViolation,
    /// `quantity * unit_price` does not fit the subtotal column.
    AmountOverflow,
    /// The surrogate-key counter of the table is used up.
    IdSpaceExhausted,
}

/// The mathematical value of a store.
#[verifier::ext_equal]
pub struct StoreModel {
    pub schema: Schema,
    pub products: Seq<ProductRow>,
    pub sales: Seq<SaleRow>,
    pub sale_items: Seq<SaleItemRow>,
    pub categories: Seq<CategoryRow>,
    pub next_product_id: u64,
    pub next_sale_id: u64,
    pub next_sale_item_id: u64,
    pub next_category_id: u64,
    pub applied: Seq<u64>,
}

/// The ids of the product rows, in row order.
pub open spec fn product_ids(s: Seq<ProductRow>) -> Seq<u64> {
    s.map_values(|p: ProductRow| p.id)
}

/// The ids of the sale rows, in row order.
pub open spec fn sale_ids(s: Seq<SaleRow>) -> Seq<u64> {
    s.map_values(|r: SaleRow| r.id)
}

/// The ids of the sale line-item rows, in row order.
pub open spec fn sale_item_ids(s: Seq<SaleItemRow>) -> Seq<u64> {
    s.map_values(|r: SaleItemRow| r.id)
}

/// The ids of the category rows, in row order.
pub open spec fn category_ids(s: Seq<CategoryRow>) -> Seq<u64> {
    s.map_values(|c: CategoryRow| c.id)
}

/// No value occurs twice.
pub open spec fn distinct_ids(ids: Seq<u64>) -> bool {
    forall|i: int, j: int| 0 <= i < j < ids.len() ==> ids[i] != ids[j]
}

/// Every value is a usable surrogate key below the table's counter.
pub open spec fn ids_below(ids: Seq<u64>, next: u64) -> bool {
    forall|i: int| 0 <= i < ids.len() ==> 1 <= #[trigger] ids[i] < next
}

/// True when some product row carries the given sku.
pub open spec fn sku_present(s: Seq<ProductRow>, sku: Seq<char>) -> bool {
    exists|i: int|
        0 <= i < s.len() && match #[trigger] s[i].sku {
            Some(t) => t@ == sku,
            None => false,
        }
}

/// No two product rows carry the same non-null sku.
pub open spec fn skus_unique(s: Seq<ProductRow>) -> bool {
    forall|i: int, j: int|
        0 <= i < j < s.len() ==> match (#[trigger] s[i].sku, #[trigger] s[j].sku) {
            (Some(a), Some(b)) => a@ != b@,
            _ => true,
        }
}

/// No two category rows carry the same name.
pub open spec fn names_unique(cats: Seq<CategoryRow>) -> bool {
    forall|i: int, j: int| 0 <= i < j < cats.len() ==> cats[i].name@ != cats[j].name@
}

/// True when some sale line item references the given product.
pub open spec fn product_referenced(items: Seq<SaleItemRow>, product_id: u64) -> bool {
    exists|i: int| 0 <= i < items.len() && items[i].product_id == product_id
}

impl StoreModel {
    /// The store's invariant: every operation of the store establishes or
    /// preserves it.
    ///
    /// - rows exist only in tables that exist, and surrogate keys are
    ///   distinct and below the table's counter;
    /// - non-null skus are unique across products, category names are
    ///   unique across categories;
    /// - every sale line item references an existing sale and an existing
    ///   product, carries a positive quantity, and persists
    ///   `quantity * unit_price` as its subtotal;
    /// - a product's `category_id` is set only once the column exists, and
    ///   then references an existing category;
    /// - the `category_id` column belongs to the products table and
    ///   references the categories table, so it exists only alongside both;
    /// - no migration version is recorded twice.
    pub open spec fn wf(self) -> bool {
        &&& distinct_ids(product_ids(self.products))
        &&& distinct_ids(sale_ids(self.sales))
        &&& distinct_ids(sale_item_ids(self.sale_items))
        &&& distinct_ids(category_ids(self.categories))
        &&& self.next_product_id >= 1
        &&& self.next_sale_id >= 1
        &&& self.next_sale_item_id >= 1
        &&& self.next_category_id >= 1
        &&& ids_below(product_ids(self.products), self.next_product_id)
        &&& ids_below(sale_ids(self.sales), self.next_sale_id)
        &&& ids_below(sale_item_ids(self.sale_items), self.next_sale_item_id)
        &&& ids_below(category_ids(self.categories), self.next_category_id)
        &&& skus_unique(self.products)
        &&& names_unique(self.categories)
        &&& (forall|i: int|
            0 <= i < self.sale_items.len() ==> sale_ids(self.sales).contains(
                #[trigger] self.sale_items[i].sale_id,
            ))
        &&& (forall|i: int|
            0 <= i < self.sale_items.len() ==> product_ids(self.products).contains(
                #[trigger] self.sale_items[i].product_id,
            ))
        &&& (forall|i: int| 0 <= i < self.sale_items.len() ==> #[trigger] self.sale_items[i].quantity >= 1)
        &&& (forall|i: int|
            0 <= i < self.sale_items.len() ==> #[trigger] self.sale_items[i].subtotal
                == self.sale_items[i].quantity * self.sale_items[i].unit_price)
        &&& (forall|i: int|
            0 <= i < self.products.len() ==> match #[trigger] self.products[i].category_id {
                Some(cid) => self.schema.products_have_category_id && category_ids(
                    self.categories,
                ).contains(cid),
                None => true,
            })
        &&& (self.schema.products_have_category_id ==> self.schema.has_products
            && self.schema.has_categories)
        &&& (!self.schema.has_products ==> self.products.len() == 0)
        &&& (!self.schema.has_sales ==> self.sales.len() == 0)
        &&& (!self.schema.has_sale_items ==> self.sale_items.len() == 0)
        &&& (!self.schema.has_categories ==> self.categories.len() == 0)
        &&& distinct_ids(self.applied)
    }
}

/// The schema of a store that has never seen a migration: no tables, no
/// indexes, no extra column.
pub open spec fn empty_schema() -> Schema {
    Schema {
        has_products: false,
        has_sales: false,
        has_sale_items: false,
        has_categories: false,
        products_have_category_id: false,
        idx_sales_created_at: false,
        idx_sale_items_sale_id: false,
        idx_products_category_id: false,
    }
}

/// The schema of a store that the full migration set has brought up to
/// date: all four tables and all three secondary indexes exist, and the
/// products table carries the `category_id` column.
pub open spec fn full_schema() -> Schema {
    Schema {
        has_products: true,
        has_sales: true,
        has_sale_items: true,
        has_categories: true,
        products_have_category_id: true,
        idx_sales_created_at: true,
        idx_sale_items_sale_id: true,
        idx_products_category_id: true,
    }
}

/// The value of a freshly created store: empty schema, no rows, all
/// surrogate-key counters at one, no migration recorded.
pub open spec fn fresh_store() -> StoreModel {
    StoreModel {
        schema: empty_schema(),
        products: Seq::empty(),
        sales: Seq::empty(),
        sale_items: Seq::empty(),
        categories: Seq::empty(),
        next_product_id: 1,
        next_sale_id: 1,
        next_sale_item_id: 1,
        next_category_id: 1,
        applied: Seq::empty(),
    }
}

/// The caller-supplied columns of a product row to insert. The surrogate
/// key and the two timestamps are filled in by the store.
pub struct NewProduct {
    pub name: String,
    pub description: Option<String>,
    pub sku: Option<String>,
    pub price: u64,
    pub cost: u64,
    pub quantity: i64,
    pub min_quantity: i64,
    pub category: Option<String>,
    pub category_id: Option<u64>,
}

/// The product row that inserting `p` creates under surrogate key `id` at
/// time `now`.
pub open spec fn product_row_of(p: NewProduct, id: u64, now: u64) -> ProductRow {
    ProductRow {
        id,
        name: p.name,
        description: p.description,
        sku: p.sku,
        price: p.price,
        cost: p.cost,
        quantity: p.quantity,
        min_quantity: p.min_quantity,
        category: p.category,
        category_id: p.category_id,
        created_at: now,
        updated_at: now,
    }
}

/// Why inserting `p` fails, or `None` when it succeeds. The checks run in
/// this order: the table must exist, a supplied `category_id` needs the
/// column the categories migration adds, a supplied sku must be new, a
/// supplied `category_id` must reference an existing category, and the
/// surrogate-key counter must not be used up.
pub open spec fn insert_product_outcome(m: StoreModel, p: NewProduct) -> Option<StoreError> {
    if !m.schema.has_products {
        Some(StoreError::NoSuchTable)
    } else if p.category_id is Some && !m.schema.products_have_category_id {
        Some(StoreError::NoSuchColumn)
    } else if match p.sku {
        Some(sk) => sku_present(m.products, sk@),
        None => false,
    } {
        Some(StoreError::UniqueViolation)
    } else if match p.category_id {
        Some(cid) => !category_ids(m.categories).contains(cid),
        None => false,
    } {
        Some(StoreError::ForeignKeyViolation)
    } else if m.next_product_id == u64::MAX {
        Some(StoreError::IdSpaceExhausted)
    } else {
        None
    }
}

/// Why inserting a sale fails, or `None` when it succeeds.
pub open spec fn insert_sale_outcome(m: StoreModel) -> Option<StoreError> {
    if !m.schema.has_sales {
        Some(StoreError::NoSuchTable)
    } else if m.next_sale_id == u64::MAX {
        Some(StoreError::IdSpaceExhausted)
    } else {
        None
    }
}

/// Why inserting a sale line item fails, or `None` when it succeeds. The
/// checks run in this order: the table must exist, the quantity must be
/// positive, the referenced sale and product must exist, the subtotal must
/// fit its column, and the surrogate-key counter must not be used up.
pub open spec fn insert_sale_item_outcome(
    m: StoreModel,
    sale_id: u64,
    product_id: u64,
    quantity: u64,
    unit_price: u64,
) -> Option<StoreError> {
    if !m.schema.has_sale_items {
        Some(StoreError::NoSuchTable)
    } else if quantity == 0 {
        Some(StoreError::CheckViolation)
    } else if !sale_ids(m.sales).contains(sale_id) {
        Some(StoreError::ForeignKeyViolation)
    } else if !product_ids(m.products).contains(product_id) {
        Some(StoreError::ForeignKeyViolation)
    } else if quantity * unit_price > u64::MAX {
        Some(StoreError::AmountOverflow)
    } else if m.next_sale_item_id == u64::MAX {
        Some(StoreError::IdSpaceExhausted)
    } else {
        None
    }
}

/// The sale rows with the given id removed, in their original order.
pub open spec fn sales_without(s: Seq<SaleRow>, id: u64) -> Seq<SaleRow>
    decreases s.len(),
{
    if s.len() == 0 {
        Seq::empty()
    } else {
        let init = sales_without(s.drop_last(), id);
        if s.last().id == id {
            init
        } else {
            init.push(s.last())
        }
    }
}

/// The sale line-item rows whose sale reference differs from the given id,
/// in their original order: what a cascading delete of that sale leaves.
pub open spec fn items_without_sale(s: Seq<SaleItemRow>, sale_id: u64) -> Seq<SaleItemRow>
    decreases s.len(),
{
    if s.len() == 0 {
        Seq::empty()
    } else {
        let init = items_without_sale(s.drop_last(), sale_id);
        if s.last().sale_id == sale_id {
            init
        } else {
            init.push(s.last())
        }
    }
}

/// The product rows with the given id removed, in their original order.
pub open spec fn products_without(s: Seq<ProductRow>, id: u64) -> Seq<ProductRow>
    decreases s.len(),
{
    if s.len() == 0 {
        Seq::empty()
    } else {
        let init = products_without(s.drop_last(), id);
        if s.last().id == id {
            init
        } else {
            init.push(s.last())
        }
    }
}

/// Appending a row under a fresh surrogate key keeps the keys distinct,
/// keeps them below the advanced counter, and keeps every old key present.
pub proof fn lemma_fresh_id_push(ids: Seq<u64>, x: u64, next2: u64)
    requires
        distinct_ids(ids),
        ids_below(ids, x),
        1 <= x < next2,
    ensures
        distinct_ids(ids.push(x)),
        ids_below(ids.push(x), next2),
        forall|y: u64| ids.contains(y) ==> #[trigger] ids.push(x).contains(y),
{
    assert forall|i: int, j: int| 0 <= i < j < ids.push(x).len() implies ids.push(x)[i]
        != ids.push(x)[j] by {
        if j == ids.len() {
            assert(ids.push(x)[i] == ids[i]);
            assert(ids[i] < x);
        }
    }
    assert forall|i: int| 0 <= i < ids.push(x).len() implies 1 <= #[trigger] ids.push(x)[i]
        < next2 by {
        if i < ids.len() {
            assert(ids.push(x)[i] == ids[i]);
        }
    }
    assert forall|y: u64| ids.contains(y) implies ids.push(x).contains(y) by {
        let k = choose|k: int| 0 <= k < ids.len() && ids[k] == y;
        assert(ids.push(x)[k] == y);
    }
}

/// What deleting a sale leaves of the sales table: every kept row is an
/// original row other than the deleted one, every other original row is
/// kept, and surrogate keys stay distinct and bounded.
pub proof fn lemma_sales_without(s: Seq<SaleRow>, id: u64, next: u64)
    requires
        distinct_ids(sale_ids(s)),
        ids_below(sale_ids(s), next),
    ensures
        sales_without(s, id).len() <= s.len(),
        forall|i: int|
            0 <= i < sales_without(s, id).len() ==> (#[trigger] sales_without(s, id)[i]).id != id,
        forall|i: int|
            0 <= i < sales_without(s, id).len() ==> s.contains(#[trigger] sales_without(s, id)[i]),
        distinct_ids(sale_ids(sales_without(s, id))),
        ids_below(sale_ids(sales_without(s, id)), next),
        forall|x: SaleRow|
            s.contains(x) && x.id != id ==> #[trigger] sales_without(s, id).contains(x),
    decreases s.len(),
{
    let res = sales_without(s, id);
    if s.len() == 0 {
        assert(res =~= Seq::<SaleRow>::empty());
        assert(sale_ids(res) =~= Seq::<u64>::empty());
    } else {
        let t = s.drop_last();
        assert(sale_ids(t) =~= sale_ids(s).drop_last());
        assert forall|i: int, j: int| 0 <= i < j < sale_ids(t).len() implies sale_ids(t)[i]
            != sale_ids(t)[j] by {
            assert(sale_ids(t)[i] == sale_ids(s)[i] && sale_ids(t)[j] == sale_ids(s)[j]);
        }
        assert forall|i: int| 0 <= i < sale_ids(t).len() implies 1 <= #[trigger] sale_ids(t)[i]
            < next by {
            assert(sale_ids(t)[i] == sale_ids(s)[i]);
        }
        lemma_sales_without(t, id, next);
        let init = sales_without(t, id);
        assert forall|x: SaleRow| t.contains(x) implies s.contains(x) by {
            let k = choose|k: int| 0 <= k < t.len() && t[k] == x;
            assert(s[k] == x);
        }
        if s.last().id == id {
            assert(res == init);
            assert forall|x: SaleRow| s.contains(x) && x.id != id implies res.contains(x) by {
                let k = choose|k: int| 0 <= k < s.len() && s[k] == x;
                if k < s.len() - 1 {
                    assert(t[k] == x);
                    assert(t.contains(x));
                    assert(init.contains(x));
                } else {
                    assert(x == s.last());
                }
            }
        } else {
            assert(res == init.push(s.last()));
            assert(sale_ids(res) =~= sale_ids(init).push(s.last().id));
            assert forall|i: int| 0 <= i < res.len() implies s.contains(#[trigger] res[i]) by {
                if i < init.len() {
                    assert(res[i] == init[i]);
                    assert(t.contains(init[i]));
                } else {
                    assert(res[i] == s.last());
                    assert(s[s.len() - 1] == s.last());
                }
            }
            assert forall|i: int, j: int|
                0 <= i < j < sale_ids(res).len() implies sale_ids(res)[i] != sale_ids(res)[j] by {
                if j == init.len() {
                    assert(res[i] == init[i]);
                    assert(t.contains(init[i]));
                    let a = choose|a: int| 0 <= a < t.len() && t[a] == init[i];
                    assert(sale_ids(s)[a] == init[i].id);
                    assert(sale_ids(s)[s.len() - 1] == s.last().id);
                    assert(sale_ids(res)[i] == init[i].id);
                    assert(sale_ids(res)[j] == s.last().id);
                } else {
                    assert(sale_ids(res)[i] == sale_ids(init)[i]);
                    assert(sale_ids(res)[j] == sale_ids(init)[j]);
                }
            }
            assert forall|i: int| 0 <= i < sale_ids(res).len() implies 1 <= #[trigger] sale_ids(
                res,
            )[i] < next by {
                if i < init.len() {
                    assert(sale_ids(res)[i] == sale_ids(init)[i]);
                } else {
                    assert(sale_ids(res)[i] == s.last().id);
                    assert(sale_ids(s)[s.len() - 1] == s.last().id);
                }
            }
            assert forall|x: SaleRow| s.contains(x) && x.id != id implies res.contains(x) by {
                let k = choose|k: int| 0 <= k < s.len() && s[k] == x;
                if k < s.len() - 1 {
                    assert(t[k] == x);
                    assert(t.contains(x));
                    assert(init.contains(x));
                    let m = choose|m: int| 0 <= m < init.len() && init[m] == x;
                    assert(res[m] == x);
                } else {
                    assert(res[res.len() - 1] == x);
                }
            }
        }
    }
}

/// What a cascading delete of a sale leaves of the line-item table: every
/// kept row is an original row referencing some other sale, and surrogate
/// keys stay distinct and bounded.
pub proof fn lemma_items_without_sale(s: Seq<SaleItemRow>, sale_id: u64, next: u64)
    requires
        distinct_ids(sale_item_ids(s)),
        ids_below(sale_item_ids(s), next),
    ensures
        items_without_sale(s, sale_id).len() <= s.len(),
        forall|i: int|
            0 <= i < items_without_sale(s, sale_id).len() ==> (#[trigger] items_without_sale(
                s,
                sale_id,
            )[i]).sale_id != sale_id,
        forall|i: int|
            0 <= i < items_without_sale(s, sale_id).len() ==> s.contains(
                #[trigger] items_without_sale(s, sale_id)[i],
            ),
        distinct_ids(sale_item_ids(items_without_sale(s, sale_id))),
        ids_below(sale_item_ids(items_without_sale(s, sale_id)), next),
    decreases s.len(),
{
    let res = items_without_sale(s, sale_id);
    if s.len() == 0 {
        assert(res =~= Seq::<SaleItemRow>::empty());
        assert(sale_item_ids(res) =~= Seq::<u64>::empty());
    } else {
        let t = s.drop_last();
        assert(sale_item_ids(t) =~= sale_item_ids(s).drop_last());
        assert forall|i: int, j: int| 0 <= i < j < sale_item_ids(t).len() implies sale_item_ids(
            t,
        )[i] != sale_item_ids(t)[j] by {
            assert(sale_item_ids(t)[i] == sale_item_ids(s)[i] && sale_item_ids(t)[j]
                == sale_item_ids(s)[j]);
        }
        assert forall|i: int|
            0 <= i < sale_item_ids(t).len() implies 1 <= #[trigger] sale_item_ids(t)[i] < next by {
            assert(sale_item_ids(t)[i] == sale_item_ids(s)[i]);
        }
        lemma_items_without_sale(t, sale_id, next);
        let init = items_without_sale(t, sale_id);
        assert forall|x: SaleItemRow| t.contains(x) implies s.contains(x) by {
            let k = choose|k: int| 0 <= k < t.len() && t[k] == x;
            assert(s[k] == x);
        }
        if s.last().sale_id == sale_id {
            assert(res == init);
        } else {
            assert(res == init.push(s.last()));
            assert(sale_item_ids(res) =~= sale_item_ids(init).push(s.last().id));
            assert forall|i: int| 0 <= i < res.len() implies s.contains(#[trigger] res[i]) by {
                if i < init.len() {
                    assert(res[i] == init[i]);
                    assert(t.contains(init[i]));
                } else {
                    assert(res[i] == s.last());
                    assert(s[s.len() - 1] == s.last());
                }
            }
            assert forall|i: int, j: int|
                0 <= i < j < sale_item_ids(res).len() implies sale_item_ids(res)[i]
                != sale_item_ids(res)[j] by {
                if j == init.len() {
                    assert(res[i] == init[i]);
                    assert(t.contains(init[i]));
                    let a = choose|a: int| 0 <= a < t.len() && t[a] == init[i];
                    assert(sale_item_ids(s)[a] == init[i].id);
                    assert(sale_item_ids(s)[s.len() - 1] == s.last().id);
                    assert(sale_item_ids(res)[i] == init[i].id);
                    assert(sale_item_ids(res)[j] == s.last().id);
                } else {
                    assert(sale_item_ids(res)[i] == sale_item_ids(init)[i]);
                    assert(sale_item_ids(res)[j] == sale_item_ids(init)[j]);
                }
            }
            assert forall|i: int|
                0 <= i < sale_item_ids(res).len() implies 1 <= #[trigger] sale_item_ids(res)[i]
                < next by {
                if i < init.len() {
                    assert(sale_item_ids(res)[i] == sale_item_ids(init)[i]);
                } else {
                    assert(sale_item_ids(res)[i] == s.last().id);
                    assert(sale_item_ids(s)[s.len() - 1] == s.last().id);
                }
            }
        }
    }
}

/// What deleting a product leaves of the products table: every kept row is
/// an original row other than the deleted one, every other original row is
/// kept, surrogate keys stay distinct and bounded, and non-null skus stay
/// unique.
pub proof fn lemma_products_without(s: Seq<ProductRow>, id: u64, next: u64)
    requires
        distinct_ids(product_ids(s)),
        ids_below(product_ids(s), next),
        skus_unique(s),
    ensures
        products_without(s, id).len() <= s.len(),
        forall|i: int|
            0 <= i < products_without(s, id).len() ==> (#[trigger] products_without(s, id)[i]).id
                != id,
        forall|i: int|
            0 <= i < products_without(s, id).len() ==> s.contains(
                #[trigger] products_without(s, id)[i],
            ),
        distinct_ids(product_ids(products_without(s, id))),
        ids_below(product_ids(products_without(s, id)), next),
        skus_unique(products_without(s, id)),
        forall|x: ProductRow|
            s.contains(x) && x.id != id ==> #[trigger] products_without(s, id).contains(x),
    decreases s.len(),
{
    let res = products_without(s, id);
    if s.len() == 0 {
        assert(res =~= Seq::<ProductRow>::empty());
        assert(product_ids(res) =~= Seq::<u64>::empty());
    } else {
        let t = s.drop_last();
        assert(product_ids(t) =~= product_ids(s).drop_last());
        assert forall|i: int, j: int| 0 <= i < j < product_ids(t).len() implies product_ids(t)[i]
            != product_ids(t)[j] by {
            assert(product_ids(t)[i] == product_ids(s)[i] && product_ids(t)[j] == product_ids(
                s,
            )[j]);
        }
        assert forall|i: int| 0 <= i < product_ids(t).len() implies 1 <= #[trigger] product_ids(
            t,
        )[i] < next by {
            assert(product_ids(t)[i] == product_ids(s)[i]);
        }
        assert forall|i: int, j: int| 0 <= i < j < t.len() implies match (
            #[trigger] t[i].sku,
            #[trigger] t[j].sku,
        ) {
            (Some(a), Some(b)) => a@ != b@,
            _ => true,
        } by {
            assert(t[i] == s[i] && t[j] == s[j]);
        }
        lemma_products_without(t, id, next);
        let init = products_without(t, id);
        assert forall|x: ProductRow| t.contains(x) implies s.contains(x) by {
            let k = choose|k: int| 0 <= k < t.len() && t[k] == x;
            assert(s[k] == x);
        }
        if s.last().id == id {
            assert(res == init);
            assert forall|x: ProductRow| s.contains(x) && x.id != id implies res.contains(x) by {
                let k = choose|k: int| 0 <= k < s.len() && s[k] == x;
                if k < s.len() - 1 {
                    assert(t[k] == x);
                    assert(t.contains(x));
                    assert(init.contains(x));
                } else {
                    assert(x == s.last());
                }
            }
        } else {
            assert(res == init.push(s.last()));
            assert(product_ids(res) =~= product_ids(init).push(s.last().id));
            assert forall|i: int| 0 <= i < res.len() implies s.contains(#[trigger] res[i]) by {
                if i < init.len() {
                    assert(res[i] == init[i]);
                    assert(t.contains(init[i]));
                } else {
                    assert(res[i] == s.last());
                    assert(s[s.len() - 1] == s.last());
                }
            }
            assert forall|i: int, j: int|
                0 <= i < j < product_ids(res).len() implies product_ids(res)[i] != product_ids(
                res,
            )[j] by {
                if j == init.len() {
                    assert(res[i] == init[i]);
                    assert(t.contains(init[i]));
                    let a = choose|a: int| 0 <= a < t.len() && t[a] == init[i];
                    assert(product_ids(s)[a] == init[i].id);
                    assert(product_ids(s)[s.len() - 1] == s.last().id);
                    assert(product_ids(res)[i] == init[i].id);
                    assert(product_ids(res)[j] == s.last().id);
                } else {
                    assert(product_ids(res)[i] == product_ids(init)[i]);
                    assert(product_ids(res)[j] == product_ids(init)[j]);
                }
            }
            assert forall|i: int| 0 <= i < product_ids(res).len() implies 1
                <= #[trigger] product_ids(res)[i] < next by {
                if i < init.len() {
                    assert(product_ids(res)[i] == product_ids(init)[i]);
                } else {
                    assert(product_ids(res)[i] == s.last().id);
                    assert(product_ids(s)[s.len() - 1] == s.last().id);
                }
            }
            assert forall|i: int, j: int| 0 <= i < j < res.len() implies match (
                #[trigger] res[i].sku,
                #[trigger] res[j].sku,
            ) {
                (Some(a), Some(b)) => a@ != b@,
                _ => true,
            } by {
                if j == init.len() {
                    assert(res[i] == init[i]);
                    assert(t.contains(init[i]));
                    let a = choose|a: int| 0 <= a < t.len() && t[a] == init[i];
                    assert(s[a] == res[i]);
                    assert(s[s.len() - 1] == res[j]);
                    assert(match (s[a].sku, s[s.len() - 1].sku) {
                        (Some(x), Some(y)) => x@ != y@,
                        _ => true,
                    });
                } else {
                    assert(res[i] == init[i] && res[j] == init[j]);
                }
            }
            assert forall|x: ProductRow| s.contains(x) && x.id != id implies res.contains(x) by {
                let k = choose|k: int| 0 <= k < s.len() && s[k] == x;
                if k < s.len() - 1 {
                    assert(t[k] == x);
                    assert(t.contains(x));
                    assert(init.contains(x));
                    let m = choose|m: int| 0 <= m < init.len() && init[m] == x;
                    assert(res[m] == x);
                } else {
                    assert(res[res.len() - 1] == x);
                }
            }
        }
    }
}

/// True when some product row already carries this sku.
fn sku_exists(products: &Vec<ProductRow>, sku: &String) -> (b: bool)
    ensures
        b == sku_present(products@, sku@),
{
    let mut i: usize = 0;
    while i < products.len()
        invariant
            i <= products.len(),
            forall|j: int|
                0 <= j < i ==> match #[trigger] products@[j].sku {
                    Some(t) => t@ != sku@,
                    None => true,
                },
        decreases products.len() - i,
    {
        match &products[i].sku {
            Some(t) => {
                if *t == *sku {
                    proof {
                        assert(match products@[i as int].sku {
                            Some(t2) => t2@ == sku@,
                            None => false,
                        });
                    }
                    return true;
                }
            },
            None => {},
        }
        i += 1;
    }
    false
}

/// True when some category row carries this id.
fn category_id_exists(cats: &Vec<CategoryRow>, cid: u64) -> (b: bool)
    ensures
        b == category_ids(cats@).contains(cid),
{
    let mut i: usize = 0;
    while i < cats.len()
        invariant
            i <= cats.len(),
            forall|j: int| 0 <= j < i ==> cats@[j].id != cid,
        decreases cats.len() - i,
    {
        if cats[i].id == cid {
            proof {
                assert(category_ids(cats@)[i as int] == cid);
            }
            return true;
        }
        i += 1;
    }
    proof {
        assert forall|k: int| 0 <= k < category_ids(cats@).len() implies #[trigger] category_ids(
            cats@,
        )[k] != cid by {
            assert(category_ids(cats@)[k] == cats@[k].id);
        }
    }
    false
}

/// True when some sale row carries this id.
fn sale_exists(sales: &Vec<SaleRow>, id: u64) -> (b: bool)
    ensures
        b == sale_ids(sales@).contains(id),
{
    let mut i: usize = 0;
    while i < sales.len()
        invariant
            i <= sales.len(),
            forall|j: int| 0 <= j < i ==> sales@[j].id != id,
        decreases sales.len() - i,
    {
        if sales[i].id == id {
            proof {
                assert(sale_ids(sales@)[i as int] == id);
            }
            return true;
        }
        i += 1;
    }
    proof {
        assert forall|k: int| 0 <= k < sale_ids(sales@).len() implies #[trigger] sale_ids(
            sales@,
        )[k] != id by {
            assert(sale_ids(sales@)[k] == sales@[k].id);
        }
    }
    false
}

/// True when some product row carries this id.
fn product_exists(products: &Vec<ProductRow>, id: u64) -> (b: bool)
    ensures
        b == product_ids(products@).contains(id),
{
    let mut i: usize = 0;
    while i < products.len()
        invariant
            i <= products.len(),
            forall|j: int| 0 <= j < i ==> products@[j].id != id,
        decreases products.len() - i,
    {
        if products[i].id == id {
            proof {
                assert(product_ids(products@)[i as int] == id);
            }
            return true;
        }
        i += 1;
    }
    proof {
        assert forall|k: int| 0 <= k < product_ids(products@).len() implies #[trigger] product_ids(
            products@,
        )[k] != id by {
            assert(product_ids(products@)[k] == products@[k].id);
        }
    }
    false
}

/// A persistent store. The hosting application creates one per store
/// location (creating the location if absent), has the migration manager
/// bring it up to date, and only then issues row-level work against it.
pub struct Store {
    pub schema: Schema,
    pub products: Vec<ProductRow>,
    pub sales: Vec<SaleRow>,
    pub sale_items: Vec<SaleItemRow>,
    pub categories: Vec<CategoryRow>,
    pub next_product_id: u64,
    pub next_sale_id: u64,
    pub next_sale_item_id: u64,
    pub next_category_id: u64,
    pub applied: Vec<u64>,
}

impl View for Store {
    type V = StoreModel;

    open spec fn view(&self) -> StoreModel {
        StoreModel {
            schema: self.schema,
            products: self.products@,
            sales: self.sales@,
            sale_items: self.sale_items@,
            categories: self.categories@,
            next_product_id: self.next_product_id,
            next_sale_id: self.next_sale_id,
            next_sale_item_id: self.next_sale_item_id,
            next_category_id: self.next_category_id,
            applied: self.applied@,
        }
    }
}

impl Store {
    /// Create a store that holds nothing yet: no migration has touched it.
    pub fn new() -> (s: Store)
        ensures
            s@ == fresh_store(),
            s@.wf(),
    {
        let s = Store {
            schema: Schema {
                has_products: false,
                has_sales: false,
                has_sale_items: false,
                has_categories: false,
                products_have_category_id: false,
                idx_sales_created_at: false,
                idx_sale_items_sale_id: false,
                idx_products_category_id: false,
            },
            products: Vec::new(),
            sales: Vec::new(),
            sale_items: Vec::new(),
            categories: Vec::new(),
            next_product_id: 1,
            next_sale_id: 1,
            next_sale_item_id: 1,
            next_category_id: 1,
            applied: Vec::new(),
        };
        proof {
            assert(s@ =~= fresh_store());
        }
        s
    }

    /// Insert a product row. On success the row receives the next surrogate
    /// key and both timestamps are set to `now`; on failure the store is
    /// unchanged and the error names the first violated constraint, in the
    /// order `insert_product_outcome` gives.
    pub fn insert_product(&mut self, p: NewProduct, now: u64) -> (r: Result<u64, StoreError>)
        requires
            old(self)@.wf(),
        ensures
            final(self)@.wf(),
            match r {
                Ok(id) => insert_product_outcome(old(self)@, p) is None && id == old(
                    self,
                ).next_product_id && final(self)@ == (StoreModel {
                    products: old(self)@.products.push(product_row_of(p, id, now)),
                    next_product_id: (id + 1) as u64,
                    ..old(self)@
                }),
                Err(e) => insert_product_outcome(old(self)@, p) == Some(e) && final(self)@ == old(
                    self,
                )@,
            },
    {
        if !self.schema.has_products {
            return Err(StoreError::NoSuchTable);
        }
        if p.category_id.is_some() && !self.schema.products_have_category_id {
            return Err(StoreError::NoSuchColumn);
        }
        match &p.sku {
            Some(sk) => {
                if sku_exists(&self.products, sk) {
                    return Err(StoreError::UniqueViolation);
                }
            },
            None => {},
        }
        match p.category_id {
            Some(cid) => {
                if !category_id_exists(&self.categories, cid) {
                    return Err(StoreError::ForeignKeyViolation);
                }
            },
            None => {},
        }
        if self.next_product_id == u64::MAX {
            return Err(StoreError::IdSpaceExhausted);
        }
        let id = self.next_product_id;
        let ghost m0 = self@;
        let row = ProductRow {
            id,
            name: p.name,
            description: p.description,
            sku: p.sku,
            price: p.price,
            cost: p.cost,
            quantity: p.quantity,
            min_quantity: p.min_quantity,
            category: p.category,
            category_id: p.category_id,
            created_at: now,
            updated_at: now,
        };
        self.products.push(row);
        self.next_product_id = id + 1;
        proof {
            let m1 = self@;
            assert(m1 =~= (StoreModel {
                products: m0.products.push(row),
                next_product_id: (id + 1) as u64,
                ..m0
            }));
            assert(product_ids(m1.products) =~= product_ids(m0.products).push(id));
            lemma_fresh_id_push(product_ids(m0.products), id, (id + 1) as u64);
            assert forall|i: int, j: int| 0 <= i < j < m1.products.len() implies match (
                #[trigger] m1.products[i].sku,
                #[trigger] m1.products[j].sku,
            ) {
                (Some(a), Some(b)) => a@ != b@,
                _ => true,
            } by {
                if j == m0.products.len() {
                    match (m1.products[i].sku, m1.products[j].sku) {
                        (Some(a), Some(b)) => {
                            assert(m1.products[i] == m0.products[i]);
                            assert(!sku_present(m0.products, b@));
                            assert(match m0.products[i].sku {
                                Some(t) => t@ != b@,
                                None => true,
                            });
                        },
                        _ => {},
                    }
                }
            }
            assert forall|i: int|
                0 <= i < m1.sale_items.len() implies product_ids(m1.products).contains(
                #[trigger] m1.sale_items[i].product_id,
            ) by {
                assert(product_ids(m0.products).contains(m0.sale_items[i].product_id));
            }
            assert forall|i: int| 0 <= i < m1.products.len() implies match #[trigger] m1.products[i].category_id {
                Some(cid) => m1.schema.products_have_category_id && category_ids(
                    m1.categories,
                ).contains(cid),
                None => true,
            } by {
                if i < m0.products.len() {
                    assert(m1.products[i] == m0.products[i]);
                }
            }
        }
        Ok(id)
    }

    /// Insert a sale row. On success the row receives the next surrogate
    /// key and `now` as its creation time; on failure the store is
    /// unchanged.
    pub fn insert_sale(
        &mut self,
        total_amount: u64,
        payment_method: Option<String>,
        notes: Option<String>,
        now: u64,
    ) -> (r: Result<u64, StoreError>)
        requires
            old(self)@.wf(),
        ensures
            final(self)@.wf(),
            match r {
                Ok(id) => insert_sale_outcome(old(self)@) is None && id == old(self).next_sale_id
                    && final(self)@ == (StoreModel {
                    sales: old(self)@.sales.push(
                        SaleRow { id, total_amount, payment_method, notes, created_at: now },
                    ),
                    next_sale_id: (id + 1) as u64,
                    ..old(self)@
                }),
                Err(e) => insert_sale_outcome(old(self)@) == Some(e) && final(self)@ == old(self)@,
            },
    {
        if !self.schema.has_sales {
            return Err(StoreError::NoSuchTable);
        }
        if self.next_sale_id == u64::MAX {
            return Err(StoreError::IdSpaceExhausted);
        }
        let id = self.next_sale_id;
        let ghost m0 = self@;
        let row = SaleRow { id, total_amount, payment_method, notes, created_at: now };
        self.sales.push(row);
        self.next_sale_id = id + 1;
        proof {
            let m1 = self@;
            assert(m1 =~= (StoreModel {
                sales: m0.sales.push(row),
                next_sale_id: (id + 1) as u64,
                ..m0
            }));
            assert(sale_ids(m1.sales) =~= sale_ids(m0.sales).push(id));
            lemma_fresh_id_push(sale_ids(m0.sales), id, (id + 1) as u64);
            assert forall|i: int|
                0 <= i < m1.sale_items.len() implies sale_ids(m1.sales).contains(
                #[trigger] m1.sale_items[i].sale_id,
            ) by {
                assert(sale_ids(m0.sales).contains(m0.sale_items[i].sale_id));
            }
        }
        Ok(id)
    }

    /// Insert a sale line item. On success the row receives the next
    /// surrogate key and persists `quantity * unit_price` as its subtotal;
    /// on failure the store is unchanged and the error names the first
    /// violated constraint, in the order `insert_sale_item_outcome` gives.
    pub fn insert_sale_item(
        &mut self,
        sale_id: u64,
        product_id: u64,
        quantity: u64,
        unit_price: u64,
    ) -> (r: Result<u64, StoreError>)
        requires
            old(self)@.wf(),
        ensures
            final(self)@.wf(),
            match r {
                Ok(id) => insert_sale_item_outcome(
                    old(self)@,
                    sale_id,
                    product_id,
                    quantity,
                    unit_price,
                ) is None && id == old(self).next_sale_item_id && final(self)@ == (StoreModel {
                    sale_items: old(self)@.sale_items.push(
                        SaleItemRow {
                            id,
                            sale_id,
                            product_id,
                            quantity,
                            unit_price,
                            subtotal: (quantity * unit_price) as u64,
                        },
                    ),
                    next_sale_item_id: (id + 1) as u64,
                    ..old(self)@
                }),
                Err(e) => insert_sale_item_outcome(
                    old(self)@,
                    sale_id,
                    product_id,
                    quantity,
                    unit_price,
                ) == Some(e) && final(self)@ == old(self)@,
            },
    {
        if !self.schema.has_sale_items {
            return Err(StoreError::NoSuchTable);
        }
        if quantity == 0 {
            return Err(StoreError::CheckViolation);
        }
        if !sale_exists(&self.sales, sale_id) {
            return Err(StoreError::ForeignKeyViolation);
        }
        if !product_exists(&self.products, product_id) {
            return Err(StoreError::ForeignKeyViolation);
        }
        let subtotal = match quantity.checked_mul(unit_price) {
            Some(s) => s,
            None => {
                return Err(StoreError::AmountOverflow);
            },
        };
        if self.next_sale_item_id == u64::MAX {
            return Err(StoreError::IdSpaceExhausted);
        }
        let id = self.next_sale_item_id;
        let ghost m0 = self@;
        let row = SaleItemRow { id, sale_id, product_id, quantity, unit_price, subtotal };
        self.sale_items.push(row);
        self.next_sale_item_id = id + 1;
        proof {
            let m1 = self@;
            assert(m1 =~= (StoreModel {
                sale_items: m0.sale_items.push(row),
                next_sale_item_id: (id + 1) as u64,
                ..m0
            }));
            assert(sale_item_ids(m1.sale_items) =~= sale_item_ids(m0.sale_items).push(id));
            lemma_fresh_id_push(sale_item_ids(m0.sale_items), id, (id + 1) as u64);
            assert forall|i: int| 0 <= i < m1.sale_items.len() implies sale_ids(m1.sales).contains(
                #[trigger] m1.sale_items[i].sale_id,
            ) && product_ids(m1.products).contains(m1.sale_items[i].product_id)
                && m1.sale_items[i].quantity >= 1 && m1.sale_items[i].subtotal
                == m1.sale_items[i].quantity * m1.sale_items[i].unit_price by {
                if i < m0.sale_items.len() {
                    assert(m1.sale_items[i] == m0.sale_items[i]);
                }
            }
        }
        Ok(id)
    }

    /// Delete a sale row and, cascading, every line item that references
    /// it. Deleting an id that no sale carries is a no-op, not an error.
    /// After the call no line item references the deleted sale.
    pub fn delete_sale(&mut self, id: u64) -> (r: Result<(), StoreError>)
        requires
            old(self)@.wf(),
        ensures
            final(self)@.wf(),
            ({
                let m0 = old(self)@;
                let m1 = final(self)@;
                match r {
                    Ok(()) => m0.schema.has_sales && m1 == (StoreModel {
                        sales: sales_without(m0.sales, id),
                        sale_items: items_without_sale(m0.sale_items, id),
                        ..m0
                    }) && (forall|i: int|
                        0 <= i < m1.sale_items.len() ==> (#[trigger] m1.sale_items[i]).sale_id
                            != id) && (forall|i: int|
                        0 <= i < m1.sales.len() ==> (#[trigger] m1.sales[i]).id != id),
                    Err(e) => e == StoreError::NoSuchTable && !m0.schema.has_sales && m1 == m0,
                }
            }),
    {
        if !self.schema.has_sales {
            return Err(StoreError::NoSuchTable);
        }
        let ghost m0 = self@;
        let mut kept_sales: Vec<SaleRow> = Vec::new();
        let mut i: usize = 0;
        while i < self.sales.len()
            invariant
                i <= self.sales.len(),
                self.sales@ == m0.sales,
                kept_sales@ == sales_without(m0.sales.subrange(0, i as int), id),
            decreases self.sales.len() - i,
        {
            proof {
                assert(m0.sales.subrange(0, i as int + 1).drop_last() =~= m0.sales.subrange(
                    0,
                    i as int,
                ));
                assert(m0.sales.subrange(0, i as int + 1).last() == m0.sales[i as int]);
            }
            if self.sales[i].id != id {
                let kept = clone_sale(&self.sales[i]);
                kept_sales.push(kept);
            }
            i += 1;
        }
        proof {
            assert(m0.sales.subrange(0, m0.sales.len() as int) =~= m0.sales);
        }
        self.sales = kept_sales;
        let mut kept_items: Vec<SaleItemRow> = Vec::new();
        let mut j: usize = 0;
        while j < self.sale_items.len()
            invariant
                j <= self.sale_items.len(),
                self.sale_items@ == m0.sale_items,
                kept_items@ == items_without_sale(m0.sale_items.subrange(0, j as int), id),
            decreases self.sale_items.len() - j,
        {
            proof {
                assert(m0.sale_items.subrange(0, j as int + 1).drop_last()
                    =~= m0.sale_items.subrange(0, j as int));
                assert(m0.sale_items.subrange(0, j as int + 1).last() == m0.sale_items[j as int]);
            }
            if self.sale_items[j].sale_id != id {
                let kept = self.sale_items[j];
                kept_items.push(kept);
            }
            j += 1;
        }
        proof {
            assert(m0.sale_items.subrange(0, m0.sale_items.len() as int) =~= m0.sale_items);
        }
        self.sale_items = kept_items;
        proof {
            let m1 = self@;
            assert(m1 =~= (StoreModel {
                sales: sales_without(m0.sales, id),
                sale_items: items_without_sale(m0.sale_items, id),
                ..m0
            }));
            lemma_sales_without(m0.sales, id, m0.next_sale_id);
            lemma_items_without_sale(m0.sale_items, id, m0.next_sale_item_id);
            assert forall|k: int|
                0 <= k < m1.sale_items.len() implies sale_ids(m1.sales).contains(
                #[trigger] m1.sale_items[k].sale_id,
            ) && product_ids(m1.products).contains(m1.sale_items[k].product_id)
                && m1.sale_items[k].quantity >= 1 && m1.sale_items[k].subtotal
                == m1.sale_items[k].quantity * m1.sale_items[k].unit_price by {
                let it = m1.sale_items[k];
                assert(m0.sale_items.contains(it));
                let a = choose|a: int| 0 <= a < m0.sale_items.len() && m0.sale_items[a] == it;
                assert(m0.sale_items[a].quantity >= 1);
                assert(sale_ids(m0.sales).contains(it.sale_id));
                let b = choose|b: int| 0 <= b < m0.sales.len() && sale_ids(m0.sales)[b]
                    == it.sale_id;
                assert(m0.sales[b].id == it.sale_id);
                assert(m0.sales.contains(m0.sales[b]));
                assert(sales_without(m0.sales, id).contains(m0.sales[b]));
                let c = choose|c: int|
                    0 <= c < sales_without(m0.sales, id).len() && sales_without(m0.sales, id)[c]
                        == m0.sales[b];
                assert(sale_ids(m1.sales)[c] == it.sale_id);
            }
        }
        Ok(())
    }

    /// Delete a product row. The product reference from sale line items
    /// does not cascade: referential integrity is enforced instead, so
    /// deleting a product that some line item still references fails with
    /// a foreign-key violation and leaves the store unchanged. Deleting an
    /// id that no product carries is a no-op, not an error.
    pub fn delete_product(&mut self, id: u64) -> (r: Result<(), StoreError>)
        requires
            old(self)@.wf(),
        ensures
            final(self)@.wf(),
            ({
                let m0 = old(self)@;
                let m1 = final(self)@;
                match r {
                    Ok(()) => m0.schema.has_products && !product_referenced(m0.sale_items, id)
                        && m1 == (StoreModel {
                        products: products_without(m0.products, id),
                        ..m0
                    }) && (forall|i: int|
                        0 <= i < m1.products.len() ==> (#[trigger] m1.products[i]).id != id),
                    Err(e) => m1 == m0 && ((e == StoreError::NoSuchTable
                        && !m0.schema.has_products) || (e == StoreError::ForeignKeyViolation
                        && m0.schema.has_products && product_referenced(m0.sale_items, id))),
                }
            }),
    {
        if !self.schema.has_products {
            return Err(StoreError::NoSuchTable);
        }
        let mut j: usize = 0;
        while j < self.sale_items.len()
            invariant
                j <= self.sale_items.len(),
                forall|k: int| 0 <= k < j ==> self.sale_items@[k].product_id != id,
                self == old(self),
                old(self)@.wf(),
                old(self)@.schema.has_products,
            decreases self.sale_items.len() - j,
        {
            if self.sale_items[j].product_id == id {
                return Err(StoreError::ForeignKeyViolation);
            }
            j += 1;
        }
        let ghost m0 = self@;
        let mut kept: Vec<ProductRow> = Vec::new();
        let mut i: usize = 0;
        while i < self.products.len()
            invariant
                i <= self.products.len(),
                self.products@ == m0.products,
                kept@ == products_without(m0.products.subrange(0, i as int), id),
            decreases self.products.len() - i,
        {
            proof {
                assert(m0.products.subrange(0, i as int + 1).drop_last() =~= m0.products.subrange(
                    0,
                    i as int,
                ));
                assert(m0.products.subrange(0, i as int + 1).last() == m0.products[i as int]);
            }
            if self.products[i].id != id {
                let kept_row = clone_product(&self.products[i]);
                kept.push(kept_row);
            }
            i += 1;
        }
        proof {
            assert(m0.products.subrange(0, m0.products.len() as int) =~= m0.products);
        }
        self.products = kept;
        proof {
            let m1 = self@;
            assert(m1 =~= (StoreModel { products: products_without(m0.products, id), ..m0 }));
            lemma_products_without(m0.products, id, m0.next_product_id);
            assert forall|k: int|
                0 <= k < m1.sale_items.len() implies product_ids(m1.products).contains(
                #[trigger] m1.sale_items[k].product_id,
            ) by {
                let it = m1.sale_items[k];
                assert(it == m0.sale_items[k]);
                assert(it.product_id != id);
                assert(product_ids(m0.products).contains(it.product_id));
                let b = choose|b: int| 0 <= b < m0.products.len() && product_ids(m0.products)[b]
                    == it.product_id;
                assert(m0.products[b].id == it.product_id);
                assert(m0.products.contains(m0.products[b]));
                assert(products_without(m0.products, id).contains(m0.products[b]));
                let c = choose|c: int|
                    0 <= c < products_without(m0.products, id).len() && products_without(
                        m0.products,
                        id,
                    )[c] == m0.products[b];
                assert(product_ids(m1.products)[c] == it.product_id);
            }
            assert forall|k: int|
                0 <= k < m1.products.len() implies match #[trigger] m1.products[k].category_id {
                Some(cid) => m1.schema.products_have_category_id && category_ids(
                    m1.categories,
                ).contains(cid),
                None => true,
            } by {
                let pr = m1.products[k];
                assert(m0.products.contains(pr));
                let a = choose|a: int| 0 <= a < m0.products.len() && m0.products[a] == pr;
                assert(match m0.products[a].category_id {
                    Some(cid) => m0.schema.products_have_category_id && category_ids(
                        m0.categories,
                    ).contains(cid),
                    None => true,
                });
            }
        }
        Ok(())
    }
}

} // verus!
