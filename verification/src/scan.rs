//! What to do with each item of a directory listing: the order in which
//! items are listed, which of them become entries, and which file is a
//! directory's index page.
use vstd::prelude::*;
use std::cmp::Ordering;
use crate::natural::{natural_cmp, natural_order, natural_order_antisymmetric, natural_order_transitive};
use crate::unicode::{lowercase, to_lowercase};

verus! {

/// One item of a directory listing, as the file system reports it.
#[derive(Debug)]
pub struct DirItem {
    /// The item's file name, when it is valid Unicode.
    pub name: Option<String>,
    /// Whether the item is a directory (following symbolic links).
    pub is_dir: bool,
    /// Whether the item is a regular file (following symbolic links).
    pub is_file: bool,
}

/// The name of an item, empty when it is not valid Unicode.
pub open spec fn name_text(item: DirItem) -> Seq<char> {
    match item.name {
        Some(n) => n@,
        None => Seq::empty(),
    }
}

/// The listing order of two items: directories before other items, then the
/// natural order of their lowercased names.
pub open spec fn item_order(a: DirItem, b: DirItem) -> Ordering {
    if a.is_dir && !b.is_dir {
        Ordering::Less
    } else if !a.is_dir && b.is_dir {
        Ordering::Greater
    } else {
        natural_order(lowercase(name_text(a)), lowercase(name_text(b)))
    }
}

/// Whether `a` is listed strictly before `b`.
pub open spec fn listed_before(a: DirItem, b: DirItem) -> bool {
    item_order(a, b) == Ordering::Less
}

/// Whether `a` is listed strictly after `b`.
pub open spec fn listed_after(a: DirItem, b: DirItem) -> bool {
    item_order(a, b) == Ordering::Greater
}

/// Law: the listing order is a total preorder: reversing the arguments
/// reverses it, and it is transitive.
pub proof fn item_order_laws(a: DirItem, b: DirItem, c: DirItem)
    ensures
        listed_after(a, b) == listed_before(b, a),
        !listed_after(a, b) && !listed_after(b, c) ==> !listed_after(a, c),
        listed_before(a, b) && !listed_after(b, c) ==> listed_before(a, c),
        !listed_after(a, b) && listed_before(b, c) ==> listed_before(a, c),
{
    let (x, y, z) = (
        lowercase(name_text(a)),
        lowercase(name_text(b)),
        lowercase(name_text(c)),
    );
    natural_order_antisymmetric(x, y);
    if natural_order(x, y) != Ordering::Greater && natural_order(y, z) != Ordering::Greater {
        natural_order_transitive(x, y, z);
    }
}

/// The listing order of two items: directories first, then names compared
/// in natural order after lowercasing.
pub fn compare_paths(left: &DirItem, right: &DirItem) -> (r: Ordering)
    ensures
        r == item_order(*left, *right),
{
    if left.is_dir && !right.is_dir {
        return Ordering::Less;
    }
    if !left.is_dir && right.is_dir {
        return Ordering::Greater;
    }
    let left_name = match &left.name {
        Some(n) => to_lowercase(n.as_str()),
        None => to_lowercase(""),
    };
    let right_name = match &right.name {
        Some(n) => to_lowercase(n.as_str()),
        None => to_lowercase(""),
    };
    proof {
        assert(""@ =~= Seq::<char>::empty()) by {
            reveal_strlit("");
        }
    }
    natural_cmp(left_name.as_str(), right_name.as_str())
}

/// Whether `a` is listed strictly after `b`, computed.
pub fn goes_after(a: &DirItem, b: &DirItem) -> (r: bool)
    ensures
        r == listed_after(*a, *b),
{
    match compare_paths(a, b) {
        Ordering::Greater => true,
        _ => false,
    }
}

/// Law: a directory is listed before anything that is not one.
pub proof fn listing_order_directories_first(a: DirItem, b: DirItem)
    requires
        a.is_dir,
        !b.is_dir,
    ensures
        item_order(a, b) == Ordering::Less,
        item_order(b, a) == Ordering::Greater,
{
}

/// Law: two items of the same kind, directories or not, are listed in the
/// natural order of their lowercased names.
pub proof fn listing_order_within_kind(a: DirItem, b: DirItem)
    requires
        a.is_dir == b.is_dir,
    ensures
        item_order(a, b) == natural_order(lowercase(name_text(a)), lowercase(name_text(b))),
{
}

/// Law: the listing order ignores letter case: replacing items by items of
/// the same kind whose names lowercase alike does not change it, for
/// directories as for files.
pub proof fn listing_order_ignores_letter_case(a: DirItem, b: DirItem, c: DirItem, d: DirItem)
    requires
        a.is_dir == c.is_dir,
        b.is_dir == d.is_dir,
        lowercase(name_text(a)) == lowercase(name_text(c)),
        lowercase(name_text(b)) == lowercase(name_text(d)),
    ensures
        item_order(a, b) == item_order(c, d),
{
}

} // verus!
