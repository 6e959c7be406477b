//! The rows of the four tables, as plain data.
//!
//! Currency amounts (`price`, `cost`, `unit_price`, `subtotal`,
//! `total_amount`) are carried in minor units (e.g. cents) as unsigned
//! integers, so non-negativity is part of the type. Timestamps are seconds
//! handed in by the caller; the store itself never reads a clock.

use vstd::prelude::*;

verus! {

/// One row of the products table. `sku` is optional but unique when
/// present; `category` is a legacy free-text label kept for backward
/// compatibility; `category_id` is a reference into the categories table,
/// populated by the categories migration and only usable once that
/// migration has added the column.
pub struct ProductRow {
    pub id: u64,
    pub name: String,
    pub description: Option<String>,
    pub sku: Option<String>,
    pub price: u64,
    pub cost: u64,
    pub quantity: i64,
    pub min_quantity: i64,
    pub category: Option<String>,
    pub category_id: Option<u64>,
    pub created_at: u64,
    pub updated_at: u64,
}

/// One row of the categories table. `name` is unique across all rows.
pub struct CategoryRow {
    pub id: u64,
    pub name: String,
    pub description: Option<String>,
    pub color: Option<String>,
    pub created_at: u64,
}

/// One row of the sales table.
pub struct SaleRow {
    pub id: u64,
    pub total_amount: u64,
    pub payment_method: Option<String>,
    pub notes: Option<String>,
    pub created_at: u64,
}

/// One row of the sale line-item table. `sale_id` references a sale and
/// cascades when that sale is deleted; `product_id` references a product
/// and does not cascade. `unit_price` is the price at the time of sale,
/// deliberately decoupled from the product's current price; `subtotal`
/// always equals `quantity * unit_price` and is persisted rather than
/// derived at read time.
#[derive(Clone, Copy, PartialEq, Eq, Structural, Debug)]
pub struct SaleItemRow {
    pub id: u64,
    pub sale_id: u64,
    pub product_id: u64,
    pub quantity: u64,
    pub unit_price: u64,
    pub subtotal: u64,
}

/// True when the product carries a non-null, non-empty legacy category
/// label: exactly the rows the categories migration seeds from and links.
pub open spec fn has_category_text(p: ProductRow) -> bool {
    match p.category {
        Some(s) => s@.len() > 0,
        None => false,
    }
}

/// The legacy category label of a product, as a character sequence.
/// Meaningful on rows where `has_category_text` holds.
pub open spec fn category_text(p: ProductRow) -> Seq<char> {
    match p.category {
        Some(s) => s@,
        None => Seq::empty(),
    }
}

/// True when some category row carries the given name.
pub open spec fn name_present(cats: Seq<CategoryRow>, name: Seq<char>) -> bool {
    exists|i: int| 0 <= i < cats.len() && cats[i].name@ == name
}

/// The id of the first category row carrying the given name, scanning from
/// index `k`; `None` when no row from `k` on carries it.
pub open spec fn id_of_name_from(cats: Seq<CategoryRow>, name: Seq<char>, k: int) -> Option<u64>
    decreases cats.len() - k,
{
    if k < 0 || k >= cats.len() {
        None
    } else if cats[k].name@ == name {
        Some(cats[k].id)
    } else {
        id_of_name_from(cats, name, k + 1)
    }
}

/// The id of the first category row carrying the given name.
pub open spec fn id_of_name(cats: Seq<CategoryRow>, name: Seq<char>) -> Option<u64> {
    id_of_name_from(cats, name, 0)
}

/// The name lookup finds a row exactly when one is present.
pub proof fn lemma_id_of_name_from_present(cats: Seq<CategoryRow>, name: Seq<char>, k: int)
    requires
        0 <= k <= cats.len(),
    ensures
        id_of_name_from(cats, name, k) is Some <==> exists|i: int|
            k <= i < cats.len() && cats[i].name@ == name,
        id_of_name_from(cats, name, k) is Some ==> exists|i: int|
            k <= i < cats.len() && cats[i].name@ == name && cats[i].id == id_of_name_from(
                cats,
                name,
                k,
            )->Some_0,
    decreases cats.len() - k,
{
    if k < cats.len() && cats[k].name@ != name {
        lemma_id_of_name_from_present(cats, name, k + 1);
    }
}

/// The name lookup finds a row exactly when one is present, and then
/// returns the id of a row carrying the name.
pub proof fn lemma_id_of_name_present(cats: Seq<CategoryRow>, name: Seq<char>)
    ensures
        id_of_name(cats, name) is Some <==> name_present(cats, name),
        id_of_name(cats, name) is Some ==> exists|i: int|
            0 <= i < cats.len() && cats[i].name@ == name && cats[i].id == id_of_name(
                cats,
                name,
            )->Some_0,
{
    lemma_id_of_name_from_present(cats, name, 0);
}

/// An owned copy of an optional text column.
pub(crate) fn clone_opt_string(o: &Option<String>) -> (r: Option<String>)
    ensures
        r == *o,
{
    match o {
        Some(s) => Some(s.clone()),
        None => None,
    }
}

/// An owned copy of a sale row.
pub(crate) fn clone_sale(r: &SaleRow) -> (c: SaleRow)
    ensures
        c == *r,
{
    SaleRow {
        id: r.id,
        total_amount: r.total_amount,
        payment_method: clone_opt_string(&r.payment_method),
        notes: clone_opt_string(&r.notes),
        created_at: r.created_at,
    }
}

/// An owned copy of a product row, with its `category_id` column replaced.
pub(crate) fn product_with_category_id(p: &ProductRow, cid: Option<u64>) -> (c: ProductRow)
    ensures
        c == (ProductRow { category_id: cid, ..*p }),
{
    ProductRow {
        id: p.id,
        name: p.name.clone(),
        description: clone_opt_string(&p.description),
        sku: clone_opt_string(&p.sku),
        price: p.price,
        cost: p.cost,
        quantity: p.quantity,
        min_quantity: p.min_quantity,
        category: clone_opt_string(&p.category),
        category_id: cid,
        created_at: p.created_at,
        updated_at: p.updated_at,
    }
}

/// An owned copy of a product row.
pub(crate) fn clone_product(p: &ProductRow) -> (c: ProductRow)
    ensures
        c == *p,
{
    let c = product_with_category_id(p, p.category_id);
    c
}

} // verus!
