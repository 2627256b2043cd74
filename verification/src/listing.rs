//! Sorting a directory listing and planning what becomes of each item.
use vstd::prelude::*;
use crate::filter::{dir_included, file_included, should_include_dir, should_include_file};
use crate::scan::{DirItem, goes_after, item_order_laws, listed_after, listed_before};
use crate::text::{chars_of, eq_ignore_ascii_case, extension_of, file_extension, same_ignoring_ascii_case, string_of};

verus! {

/// `sorted` is `items` sorted stably in listing order: `idx[k]` is the
/// position in `items` of `sorted[k]`, every position is used once, no item
/// is listed after one that follows it, and items that tie keep their order.
pub open spec fn is_stable_listing(items: Seq<DirItem>, sorted: Seq<DirItem>, idx: Seq<int>) -> bool {
    &&& sorted.len() == items.len()
    &&& idx.len() == items.len()
    &&& forall|k: int|
        0 <= k < sorted.len() ==> 0 <= #[trigger] idx[k] < items.len() && sorted[k] == items[idx[k]]
    &&& forall|k: int, l: int| 0 <= k < l < sorted.len() ==> #[trigger] idx[k] != #[trigger] idx[l]
    &&& forall|k: int, l: int|
        0 <= k < l < sorted.len() ==> !listed_after(#[trigger] sorted[k], #[trigger] sorted[l])
    &&& forall|k: int, l: int|
        0 <= k < l < sorted.len() && !listed_before(#[trigger] sorted[k], #[trigger] sorted[l])
            ==> idx[k] < idx[l]
}

/// `sorted` is `items` in listing order, ties kept in their original order
/// (the result of a stable sort such as `slice::sort_by`).
pub open spec fn stably_listed(items: Seq<DirItem>, sorted: Seq<DirItem>) -> bool {
    exists|idx: Seq<int>| is_stable_listing(items, sorted, idx)
}

#[verifier::spinoff_prover]
#[verifier::rlimit(40)]
proof fn lemma_insert_listed(
    items: Seq<DirItem>,
    r: Seq<DirItem>,
    idx: Seq<int>,
    p: int,
    x: DirItem,
)
    requires
        items.len() > 0,
        is_stable_listing(items.drop_last(), r, idx),
        x == items.last(),
        0 <= p <= r.len(),
        forall|k: int| 0 <= k < p ==> !listed_after(#[trigger] r[k], x),
        p < r.len() ==> listed_after(r[p], x),
    ensures
        is_stable_listing(items, r.insert(p, x), idx.insert(p, items.len() - 1)),
{
    let n = items.len() - 1;
    let s = r.insert(p, x);
    let t = idx.insert(p, n);
    r.insert_ensures(p, x);
    idx.insert_ensures(p, n);
    let old_items = items.drop_last();
    assert forall|l: int| p < l < s.len() implies listed_before(x, #[trigger] s[l]) by {
        assert(s[l] == r[l - 1]);
        item_order_laws(r[p], x, r[l - 1]);
        item_order_laws(x, r[p], r[l - 1]);
        if l - 1 > p {
            assert(!listed_after(r[p], r[l - 1]));
        }
    }
    assert forall|k: int| 0 <= k < s.len() implies 0 <= #[trigger] t[k] < items.len() && s[k]
        == items[t[k]] by {
        if k < p {
            assert(s[k] == r[k] && t[k] == idx[k]);
            assert(old_items[idx[k]] == items[idx[k]]);
        } else if k > p {
            assert(s[k] == r[k - 1] && t[k] == idx[k - 1]);
            assert(old_items[idx[k - 1]] == items[idx[k - 1]]);
        }
    }
    assert forall|k: int, l: int| 0 <= k < l < s.len() implies #[trigger] t[k] != #[trigger] t[l] by {
        if k != p && l != p {
            let k0 = if k < p { k } else { k - 1 };
            let l0 = if l < p { l } else { l - 1 };
            assert(t[k] == idx[k0] && t[l] == idx[l0]);
            assert(idx[k0] != idx[l0]);
        } else if k == p {
            assert(t[l] == idx[l - 1]);
        } else {
            assert(t[k] == idx[k]);
        }
    }
    assert forall|k: int, l: int| 0 <= k < l < s.len() implies !listed_after(
        #[trigger] s[k],
        #[trigger] s[l],
    ) && (!listed_before(s[k], s[l]) ==> t[k] < t[l]) by {
        if k != p && l != p {
            let k0 = if k < p { k } else { k - 1 };
            let l0 = if l < p { l } else { l - 1 };
            assert(s[k] == r[k0] && s[l] == r[l0]);
            assert(t[k] == idx[k0] && t[l] == idx[l0]);
            assert(!listed_after(r[k0], r[l0]));
        } else if k == p {
            assert(listed_before(x, s[l]));
            item_order_laws(x, s[l], x);
        } else {
            assert(s[k] == r[k]);
            assert(t[k] == idx[k]);
        }
    }
}

/// `items` sorted stably in listing order: directories first, then by the
/// natural order of the lowercased names; items that compare equal keep the
/// order in which they were given.
pub fn sort_dir_items(items: Vec<DirItem>) -> (r: Vec<DirItem>)
    ensures
        stably_listed(items@, r@),
{
    let ghost all = items@;
    let total = items.len();
    assert(all.len() == total);
    let mut rest = items;
    let mut sorted: Vec<DirItem> = Vec::new();
    let ghost mut idx: Seq<int> = Seq::empty();
    let mut i: usize = 0;
    assert(all.skip(0) =~= all);
    assert(all.take(0) =~= Seq::<DirItem>::empty());
    while rest.len() > 0
        invariant
            i <= all.len(),
            all.len() <= usize::MAX,
            rest@ == all.skip(i as int),
            is_stable_listing(all.take(i as int), sorted@, idx),
        decreases rest.len(),
    {
        assert(i < all.len());
        let x = rest.remove(0);
        let ghost xv = x;
        assert(xv == all[i as int]);
        let mut p: usize = 0;
        while p < sorted.len() && !goes_after(&sorted[p], &x)
            invariant
                p <= sorted.len(),
                forall|k: int| 0 <= k < p ==> !listed_after(#[trigger] sorted@[k], x),
            decreases sorted.len() - p,
        {
            p = p + 1;
        }
        proof {
            let pre = all.take(i + 1);
            assert(pre.drop_last() =~= all.take(i as int));
            assert(pre.last() == x);
            lemma_insert_listed(pre, sorted@, idx, p as int, x);
            idx = idx.insert(p as int, i as int);
        }
        sorted.insert(p, x);
        i = i + 1;
        assert(all.skip(i as int) =~= all.skip(i - 1).drop_first());
    }
    assert(all.take(i as int) =~= all);
    sorted
}

/// What becomes of an item of a directory listing.
#[derive(Debug, PartialEq, Eq, Structural)]
pub enum ItemAction {
    /// The item is left out of the book.
    Skip,
    /// The item is a directory to scan; it becomes an entry if it has an
    /// index page.
    Directory,
    /// The item is a page of the book.
    Page,
}

/// The names of index pages, the most preferred first.
pub open spec fn index_names() -> Seq<Seq<char>> {
    seq!["README.md"@, "index.md"@, "SUMMARY.md"@]
}

/// Whether `name` is, up to ASCII case, the name of an index page.
pub open spec fn is_index_name(name: Seq<char>) -> bool {
    same_ignoring_ascii_case(name, index_names()[0]) || same_ignoring_ascii_case(
        name,
        index_names()[1],
    ) || same_ignoring_ascii_case(name, index_names()[2])
}

/// Whether `name` has the extension `md`, up to ASCII case.
pub open spec fn is_markdown_name(name: Seq<char>) -> bool {
    match file_extension(name) {
        Some(e) => same_ignoring_ascii_case(e, "md"@),
        None => false,
    }
}

/// What becomes of `item`: a directory is scanned unless its name is hidden
/// or excluded; a regular file is a page when its extension is `md`, it is
/// not an index page or `SUMMARY.md`, and its name is not that of a
/// temporary or draft file; everything else, and every item whose name is not
/// valid Unicode, is skipped.
pub open spec fn item_action(item: DirItem) -> ItemAction {
    match item.name {
        None => ItemAction::Skip,
        Some(n) => if item.is_dir {
            if dir_included(n@) {
                ItemAction::Directory
            } else {
                ItemAction::Skip
            }
        } else if !item.is_file {
            ItemAction::Skip
        } else if !is_markdown_name(n@) {
            ItemAction::Skip
        } else if is_index_name(n@) {
            ItemAction::Skip
        } else if same_ignoring_ascii_case(n@, "SUMMARY.md"@) || !file_included(n@) {
            ItemAction::Skip
        } else {
            ItemAction::Page
        },
    }
}

/// Whether the file name `name` is an index page name.
fn is_index_file_name(name: &str) -> (r: bool)
    ensures
        r == is_index_name(name@),
{
    eq_ignore_ascii_case(name, "README.md") || eq_ignore_ascii_case(name, "index.md")
        || eq_ignore_ascii_case(name, "SUMMARY.md")
}

/// What becomes of `item` when its directory is scanned.
pub fn classify_item(item: &DirItem) -> (r: ItemAction)
    ensures
        r == item_action(*item),
{
    let name = match &item.name {
        None => {
            return ItemAction::Skip;
        },
        Some(n) => n,
    };
    if item.is_dir {
        if should_include_dir(name.as_str()) {
            return ItemAction::Directory;
        } else {
            return ItemAction::Skip;
        }
    }
    if !item.is_file {
        return ItemAction::Skip;
    }
    let chars = chars_of(name.as_str());
    let markdown = match extension_of(&chars) {
        Some(e) => {
            let ext = string_of(&e);
            eq_ignore_ascii_case(ext.as_str(), "md")
        },
        None => false,
    };
    if !markdown {
        return ItemAction::Skip;
    }
    if is_index_file_name(name.as_str()) {
        return ItemAction::Skip;
    }
    if eq_ignore_ascii_case(name.as_str(), "SUMMARY.md") || !should_include_file(name.as_str()) {
        return ItemAction::Skip;
    }
    ItemAction::Page
}

/// An item kept from a directory listing.
#[derive(Debug)]
pub struct PlannedItem {
    /// The item's file name.
    pub name: String,
    /// Whether it is a directory to scan (else it is a page).
    pub is_dir: bool,
}

/// The kept items of `sorted`, in order, as names and whether each is a
/// directory.
pub open spec fn planned_of(sorted: Seq<DirItem>) -> Seq<(Seq<char>, bool)>
    decreases sorted.len(),
{
    if sorted.len() == 0 {
        Seq::empty()
    } else {
        let rest = planned_of(sorted.drop_last());
        let item = sorted.last();
        match item_action(item) {
            ItemAction::Skip => rest,
            ItemAction::Directory => rest.push((name_of(item), true)),
            ItemAction::Page => rest.push((name_of(item), false)),
        }
    }
}

/// The name of an item with a name.
pub open spec fn name_of(item: DirItem) -> Seq<char> {
    match item.name {
        Some(n) => n@,
        None => Seq::empty(),
    }
}

/// The plain values of planned items.
pub open spec fn planned_view(items: Seq<PlannedItem>) -> Seq<(Seq<char>, bool)> {
    items.map_values(|p: PlannedItem| (p.name@, p.is_dir))
}

/// The plan for one directory: its items in listing order (directories
/// first, then natural order of lowercased names, ties as listed), with the
/// skipped ones left out.
pub fn plan_directory(items: Vec<DirItem>) -> (r: Vec<PlannedItem>)
    ensures
        exists|sorted: Seq<DirItem>|
            stably_listed(items@, sorted) && #[trigger] planned_of(sorted) == planned_view(r@),
{
    let sorted = sort_dir_items(items);
    let mut plan: Vec<PlannedItem> = Vec::new();
    let mut i: usize = 0;
    assert(sorted@.take(0) =~= Seq::<DirItem>::empty());
    while i < sorted.len()
        invariant
            i <= sorted.len(),
            planned_view(plan@) == planned_of(sorted@.take(i as int)),
        decreases sorted.len() - i,
    {
        let item = &sorted[i];
        let action = classify_item(item);
        let ghost before = planned_view(plan@);
        proof {
            assert(sorted@.take(i + 1).drop_last() =~= sorted@.take(i as int));
            assert(sorted@.take(i + 1).last() == *item);
        }
        match action {
            ItemAction::Skip => {},
            ItemAction::Directory => {
                let name = match &item.name {
                    Some(n) => n.clone(),
                    None => String::new(),
                };
                plan.push(PlannedItem { name, is_dir: true });
                assert(planned_view(plan@) =~= before.push((name_of(*item), true)));
            },
            ItemAction::Page => {
                let name = match &item.name {
                    Some(n) => n.clone(),
                    None => String::new(),
                };
                plan.push(PlannedItem { name, is_dir: false });
                assert(planned_view(plan@) =~= before.push((name_of(*item), false)));
            },
        }
        i = i + 1;
    }
    assert(sorted@.take(sorted.len() as int) =~= sorted@);
    plan
}

/// Whether `item` is a regular file named, up to ASCII case, `index_names()[k]`.
pub open spec fn is_index_candidate(item: DirItem, k: int) -> bool {
    item.is_file && match item.name {
        Some(n) => same_ignoring_ascii_case(n@, index_names()[k]),
        None => false,
    }
}

/// Position of the first item of `items` that is a candidate for the index
/// name `k`.
pub open spec fn first_candidate(items: Seq<DirItem>, k: int) -> Option<int>
    decreases items.len(),
{
    if items.len() == 0 {
        None
    } else if is_index_candidate(items[0], k) {
        Some(0)
    } else {
        match first_candidate(items.drop_first(), k) {
            Some(j) => Some(j + 1),
            None => None,
        }
    }
}

/// The index page of a directory listing: the first regular file named
/// `README.md`, else the first named `index.md`, else the first named
/// `SUMMARY.md`, names compared up to ASCII case, files taken in listing
/// order.
pub open spec fn index_file_of(items: Seq<DirItem>) -> Option<int> {
    match first_candidate(items, 0) {
        Some(j) => Some(j),
        None => match first_candidate(items, 1) {
            Some(j) => Some(j),
            None => first_candidate(items, 2),
        },
    }
}

proof fn lemma_first_candidate(items: Seq<DirItem>, k: int, j: int)
    requires
        0 <= j <= items.len(),
        forall|m: int| 0 <= m < j ==> !is_index_candidate(#[trigger] items[m], k),
        j == items.len() || is_index_candidate(items[j], k),
    ensures
        first_candidate(items, k) == (if j == items.len() { None } else { Some(j) }),
    decreases j,
{
    if j > 0 {
        let d = items.drop_first();
        assert forall|m: int| 0 <= m < j - 1 implies !is_index_candidate(#[trigger] d[m], k) by {
            assert(d[m] == items[m + 1]);
        }
        lemma_first_candidate(d, k, j - 1);
    }
}

/// Position in `items` of the first regular file named `name` up to ASCII
/// case.
fn find_candidate(items: &Vec<DirItem>, name: &str, Ghost(k): Ghost<int>) -> (r: Option<usize>)
    requires
        0 <= k < 3,
        name@ == index_names()[k],
    ensures
        match r {
            Some(j) => first_candidate(items@, k) == Some(j as int),
            None => first_candidate(items@, k) is None,
        },
{
    let mut j: usize = 0;
    while j < items.len()
        invariant
            j <= items.len(),
            name@ == index_names()[k],
            forall|m: int| 0 <= m < j ==> !is_index_candidate(#[trigger] items@[m], k),
        decreases items.len() - j,
    {
        let item = &items[j];
        let hit = item.is_file && match &item.name {
            Some(n) => eq_ignore_ascii_case(n.as_str(), name),
            None => false,
        };
        if hit {
            proof {
                lemma_first_candidate(items@, k, j as int);
            }
            return Some(j);
        }
        j = j + 1;
    }
    proof {
        lemma_first_candidate(items@, k, items.len() as int);
    }
    None
}

/// The position in `files` of the directory's index page: the first regular
/// file named `README.md`, else `index.md`, else `SUMMARY.md` (up to ASCII
/// case), `None` when there is none.
pub fn find_index_file(files: &Vec<DirItem>) -> (r: Option<usize>)
    ensures
        match r {
            Some(j) => index_file_of(files@) == Some(j as int),
            None => index_file_of(files@) is None,
        },
{
    if let Some(j) = find_candidate(files, "README.md", Ghost(0)) {
        return Some(j);
    }
    if let Some(j) = find_candidate(files, "index.md", Ghost(1)) {
        return Some(j);
    }
    find_candidate(files, "SUMMARY.md", Ghost(2))
}

proof fn lemma_positions_cover(idx: Seq<int>, n: int)
    requires
        idx.len() == n,
        forall|k: int| 0 <= k < n ==> 0 <= #[trigger] idx[k] < n,
        forall|k: int, l: int| 0 <= k < l < n ==> #[trigger] idx[k] != #[trigger] idx[l],
    ensures
        forall|j: int| 0 <= j < n ==> #[trigger] idx.contains(j),
{
    assert(idx.no_duplicates()) by {
        assert forall|i: int, j: int| 0 <= i < idx.len() && 0 <= j < idx.len() && i != j implies idx[i]
            != idx[j] by {
            if i < j {
                assert(idx[i] != idx[j]);
            } else {
                assert(idx[j] != idx[i]);
            }
        }
    }
    idx.unique_seq_to_set();
    vstd::set_lib::lemma_int_range(0, n);
    let range = vstd::set_lib::set_int_range(0, n);
    assert(idx.to_set().subset_of(range)) by {
        assert forall|v: int| idx.to_set().contains(v) implies range.contains(v) by {
            assert(idx.contains(v));
        }
    }
    vstd::set_lib::lemma_len_subset(idx.to_set(), range);
    vstd::set_lib::lemma_subset_equality(idx.to_set(), range);
    assert forall|j: int| 0 <= j < n implies #[trigger] idx.contains(j) by {
        assert(range.contains(j));
        assert(idx.to_set().contains(j));
    }
}

proof fn lemma_same_positions(
    items: Seq<DirItem>,
    s1: Seq<DirItem>,
    i1: Seq<int>,
    s2: Seq<DirItem>,
    i2: Seq<int>,
    k: int,
)
    requires
        is_stable_listing(items, s1, i1),
        is_stable_listing(items, s2, i2),
        0 <= k <= items.len(),
    ensures
        forall|m: int| 0 <= m < k ==> #[trigger] i1[m] == i2[m],
    decreases k,
{
    if k > 0 {
        let n = items.len() as int;
        lemma_same_positions(items, s1, i1, s2, i2, k - 1);
        let m = k - 1;
        let a = i1[m];
        let b = i2[m];
        if a != b {
            lemma_positions_cover(i1, n);
            lemma_positions_cover(i2, n);
            assert(i1.contains(b));
            assert(i2.contains(a));
            let k1 = choose|j: int| 0 <= j < n && i1[j] == b;
            let k2 = choose|j: int| 0 <= j < n && i2[j] == a;
            if k1 < m {
                assert(i2[k1] == b);
                assert(i2[k1] != i2[m]);
            }
            if k2 < m {
                assert(i1[k2] == a);
                assert(i1[k2] != i1[m]);
            }
            assert(m < k1 && m < k2);
            let (x, y) = (items[a], items[b]);
            assert(s1[m] == x && s1[k1] == y);
            assert(s2[m] == y && s2[k2] == x);
            assert(!listed_after(x, y));
            assert(!listed_after(y, x));
            item_order_laws(x, y, x);
            item_order_laws(y, x, y);
            assert(!listed_before(x, y) ==> a < b);
            assert(!listed_before(y, x) ==> b < a);
        }
    }
}

/// Law: a listing has only one stable order: any two stable sortings of the
/// same items are equal. So the order of a directory listing is fully
/// determined by its items and their order as listed.
pub proof fn stable_listing_unique(items: Seq<DirItem>, s1: Seq<DirItem>, s2: Seq<DirItem>)
    requires
        stably_listed(items, s1),
        stably_listed(items, s2),
    ensures
        s1 == s2,
{
    let i1 = choose|idx: Seq<int>| is_stable_listing(items, s1, idx);
    let i2 = choose|idx: Seq<int>| is_stable_listing(items, s2, idx);
    lemma_same_positions(items, s1, i1, s2, i2, items.len() as int);
    assert forall|k: int| 0 <= k < s1.len() implies s1[k] == s2[k] by {
        assert(i1[k] == i2[k]);
    }
    assert(s1 =~= s2);
}

/// Law: directories come before all other items of a listing.
pub proof fn listing_directories_first(items: Seq<DirItem>, sorted: Seq<DirItem>)
    requires
        stably_listed(items, sorted),
    ensures
        forall|k: int, l: int|
            0 <= k < l < sorted.len() && (#[trigger] sorted[l]).is_dir ==> (#[trigger] sorted[k]).is_dir,
{
    let idx = choose|idx: Seq<int>| is_stable_listing(items, sorted, idx);
    assert forall|k: int, l: int|
        0 <= k < l < sorted.len() && (#[trigger] sorted[l]).is_dir implies (#[trigger] sorted[k]).is_dir by {
        assert(!listed_after(sorted[k], sorted[l]));
    }
}

/// Law: the summary file itself, hidden directories and directories named
/// like `node_modules` or `__pycache__` never become entries.
pub proof fn generated_and_hidden_items_skipped(item: DirItem)
    ensures
        !item.is_dir && item.name is Some && same_ignoring_ascii_case(name_of(item), "SUMMARY.md"@)
            ==> item_action(item) == ItemAction::Skip,
        item.is_dir && item.name is Some && name_of(item).len() > 0 && name_of(item)[0] == '.'
            ==> item_action(item) == ItemAction::Skip,
        item.is_dir && item.name is Some && (name_of(item) == "node_modules"@ || name_of(item)
            == "__pycache__"@) ==> item_action(item) == ItemAction::Skip,
{
    if let Some(n) = item.name {
        if n@ == "node_modules"@ {
            assert(crate::filter::excluded_dir_names()[0] == n@);
        }
        if n@ == "__pycache__"@ {
            assert(crate::filter::excluded_dir_names()[1] == n@);
        }
    }
}

/// What a scanned directory uses as its index page.
#[derive(Debug)]
pub enum IndexPlan {
    /// The item at this position of its listing.
    Existing(usize),
    /// A generated `README.md` holding `# <directory name>`.
    Generate,
    /// Nothing: the directory gives no entry.
    Missing,
}

/// The index page of a scanned directory: its own when it has one; else a
/// generated one when `auto_readme` is set; else none.
pub fn plan_index(files: &Vec<DirItem>, auto_readme: bool) -> (r: IndexPlan)
    ensures
        match r {
            IndexPlan::Existing(j) => index_file_of(files@) == Some(j as int),
            IndexPlan::Generate => index_file_of(files@) is None && auto_readme,
            IndexPlan::Missing => index_file_of(files@) is None && !auto_readme,
        },
{
    match find_index_file(files) {
        Some(j) => IndexPlan::Existing(j),
        None => if auto_readme {
            IndexPlan::Generate
        } else {
            IndexPlan::Missing
        },
    }
}

} // verus!
