use crate::dynamic::longest_common_substring::table_fits;
use crate::sort::quick::quick_sort;
use crate::utils::order::{lemma_key_type_u32, lemma_order_laws, lt};
use crate::utils::sorted::{sorted, strictly_sorted};
use ndarray::Array2;
use vstd::prelude::*;
use vstd::string::StringExecFns;

verus! {

/// An item that may go into the bag: it has a name, takes room and is worth
/// something.
pub struct Item {
    name: String,
    size: u32,
    value: u32,
}

impl Item {
    /// The name of the item.
    pub closed spec fn spec_name(&self) -> Seq<char> {
        self.name@
    }

    /// The room that the item takes.
    pub closed spec fn spec_size(&self) -> u32 {
        self.size
    }

    /// What the item is worth.
    pub closed spec fn spec_value(&self) -> u32 {
        self.value
    }

    /// An item with this name, this size and this value.
    pub fn new(name: &str, size: u32, value: u32) -> (item: Item)
        ensures
            item.spec_name() == name@,
            item.spec_size() == size,
            item.spec_value() == value,
    {
        Item { name: String::from_str(name), size: size, value: value }
    }
}

/// The sizes of those of the first `upto` items that `mask` picks, added
/// up: `mask` picks the item at place `j` where its bit `j` is set.
pub open spec fn picked_sum(items: Seq<Item>, mask: usize, upto: nat) -> nat
    decreases upto,
{
    if upto == 0 {
        0
    } else {
        let j = (upto - 1) as usize;
        picked_sum(items, mask, (upto - 1) as nat) + (if mask & (1usize << j) != 0 {
            items[upto - 1].spec_size() as nat
        } else {
            0
        })
    }
}

/// The sizes of the first `upto` items, added up.
pub open spec fn all_sum(items: Seq<Item>, upto: nat) -> nat
    decreases upto,
{
    if upto == 0 {
        0
    } else {
        all_sum(items, (upto - 1) as nat) + items[upto - 1].spec_size() as nat
    }
}

/// The size of the largest of the first `upto` items, or 0 if there is
/// none.
pub open spec fn max_size(items: Seq<Item>, upto: nat) -> nat
    decreases upto,
{
    if upto == 0 {
        0
    } else if max_size(items, (upto - 1) as nat) >= items[upto - 1].spec_size() {
        max_size(items, (upto - 1) as nat)
    } else {
        items[upto - 1].spec_size() as nat
    }
}

/// `x` is what one or more of the items take together, and it is no more
/// than what the largest single item takes.
pub open spec fn is_bag_size(items: Seq<Item>, x: u32) -> bool {
    &&& x <= max_size(items, items.len())
    &&& exists|mask: usize|
        1 <= mask < (1usize << (items.len() as usize)) && #[trigger] picked_sum(
            items,
            mask,
            items.len(),
        ) == x
}

/// What some of the items take is no more than what they all take.
proof fn lemma_picked_within(items: Seq<Item>, mask: usize, upto: nat)
    ensures
        picked_sum(items, mask, upto) <= all_sum(items, upto),
    decreases upto,
{
    if upto > 0 {
        lemma_picked_within(items, mask, (upto - 1) as nat);
    }
}

/// What the first items take is no more than what more of them take.
proof fn lemma_all_sum_grows(items: Seq<Item>, a: nat, b: nat)
    requires
        a <= b,
    ensures
        all_sum(items, a) <= all_sum(items, b),
    decreases b,
{
    if a < b {
        lemma_all_sum_grows(items, a, (b - 1) as nat);
    }
}

/// A sorted list without repetition is strictly sorted, and a list that
/// holds the same sizes as often as a list without repetition has none.
proof fn lemma_sorted_sizes(before: Seq<u32>, after: Seq<u32>)
    requires
        before.no_duplicates(),
        sorted(after),
        after.to_multiset() == before.to_multiset(),
    ensures
        strictly_sorted(after),
        forall|x: u32| #[trigger] after.contains(x) <==> before.contains(x),
{
    lemma_key_type_u32();
    lemma_order_laws::<u32>();
    before.lemma_multiset_has_no_duplicates();
    after.lemma_multiset_has_no_duplicates_conv();
    before.to_multiset_ensures();
    after.to_multiset_ensures();
    assert forall|x: u32| #[trigger] after.contains(x) <==> before.contains(x) by {
        broadcast use vstd::seq_lib::group_to_multiset_ensures;

        if after.contains(x) {
            assert(after.to_multiset().count(x) > 0);
            assert(before.to_multiset().count(x) > 0);
        }
        if before.contains(x) {
            assert(before.to_multiset().count(x) > 0);
            assert(after.to_multiset().count(x) > 0);
        }
    }
    assert forall|i: int, j: int| 0 <= i < j < after.len() implies lt(
        #[trigger] after[i],
        #[trigger] after[j],
    ) by {
        assert(after[i] != after[j]);
    }
}

/// Whether `list` holds `x`.
fn holds(list: &Vec<u32>, x: u32) -> (found: bool)
    ensures
        found == list@.contains(x),
{
    let mut i: usize = 0;
    while i < list.len()
        invariant
            i <= list.len(),
            forall|j: int| 0 <= j < i ==> list@[j] != x,
        decreases list.len() - i,
    {
        if list[i] == x {
            return true;
        }
        i += 1;
    }
    false
}

/// Return all available combination of bag sizes.
///
/// Every choice of one or more of the items is gone through, one number for
/// each with a bit for each item; what the chosen items take together goes
/// into the list unless it is there or is more than the largest single item
/// takes. The list comes back in ascending order. There must be fewer items
/// than a `usize` has bits, and all together they must take no more than
/// `u32::MAX`.
pub fn gen_bag_size_list(items: &Vec<Item>) -> (sizes: Vec<u32>)
    requires
        items.len() < usize::BITS,
        all_sum(items@, items@.len()) <= u32::MAX,
    ensures
        strictly_sorted(sizes@),
        forall|x: u32| #[trigger] sizes@.contains(x) <==> is_bag_size(items@, x),
{
    let len = items.len();
    let total: usize = 1 << len;
    let mut all_size_list: Vec<u32> = Vec::new();

    // get max size.
    let mut max: u32 = 0;
    let mut k: usize = 0;
    while k < len
        invariant
            k <= len,
            len == items.len(),
            max == max_size(items@, k as nat),
        decreases len - k,
    {
        if items[k].size > max {
            max = items[k].size;
        }
        k += 1;
    }

    let mut i: usize = 1;
    while i < total
        invariant
            1 <= i,
            i <= total || i == 1,
            len == items.len(),
            len < usize::BITS,
            total == 1usize << len,
            all_sum(items@, items@.len()) <= u32::MAX,
            max == max_size(items@, len as nat),
            all_size_list@.no_duplicates(),
            forall|x: u32| #[trigger]
                all_size_list@.contains(x) <==> x <= max && exists|mask: usize|
                    1 <= mask < i && #[trigger] picked_sum(items@, mask, len as nat) == x,
        decreases total - i,
    {
        let mut sum: u32 = 0;
        let mut j: usize = 0;
        while j < len
            invariant
                j <= len,
                len == items.len(),
                len < usize::BITS,
                all_sum(items@, items@.len()) <= u32::MAX,
                sum == picked_sum(items@, i, j as nat),
            decreases len - j,
        {
            proof {
                lemma_picked_within(items@, i, (j + 1) as nat);
                lemma_all_sum_grows(items@, (j + 1) as nat, len as nat);
            }
            if i & (1 << j) != 0 {
                sum = sum + items[j].size;
            }
            j += 1;
        }
        let ghost before = all_size_list@;
        if !holds(&all_size_list, sum) && sum <= max {
            all_size_list.push(sum);
        }
        proof {
            assert(picked_sum(items@, i, len as nat) == sum);
            assert forall|x: u32| #[trigger]
                all_size_list@.contains(x) <==> x <= max && exists|mask: usize|
                    1 <= mask < i + 1 && #[trigger] picked_sum(items@, mask, len as nat) == x by {
                if all_size_list@.contains(x) {
                    let p = choose|p: int| 0 <= p < all_size_list.len() && all_size_list@[p] == x;
                    if p < before.len() {
                        assert(before[p] == x);
                        assert(before.contains(x));
                    }
                }
                if before.contains(x) {
                    let p = choose|p: int| 0 <= p < before.len() && before[p] == x;
                    assert(all_size_list@[p] == x);
                }
                if x == sum && sum <= max {
                    if !before.contains(sum) {
                        assert(all_size_list@[before.len() as int] == sum);
                    }
                }
                if x <= max && exists|mask: usize|
                    1 <= mask < i + 1 && #[trigger] picked_sum(items@, mask, len as nat) == x {
                    let mask = choose|mask: usize|
                        1 <= mask < i + 1 && #[trigger] picked_sum(items@, mask, len as nat) == x;
                    if mask < i {
                        assert(before.contains(x));
                    }
                }
            }
            assert(all_size_list@.no_duplicates()) by {
                assert forall|a: int, b: int|
                    0 <= a < all_size_list.len() && 0 <= b < all_size_list.len() && a
                        != b implies all_size_list@[a] != all_size_list@[b] by {
                    if a < before.len() && b < before.len() {
                        assert(before[a] != before[b]);
                    } else if a < before.len() {
                        assert(before.contains(before[a]));
                    } else {
                        assert(before.contains(before[b]));
                    }
                }
            }
        }
        i += 1;
    }

    let ghost unsorted = all_size_list@;
    proof {
        lemma_key_type_u32();
        assert forall|x: u32| #[trigger] unsorted.contains(x) <==> is_bag_size(items@, x) by {
            if is_bag_size(items@, x) {
                let mask = choose|mask: usize|
                    1 <= mask < (1usize << (items@.len() as usize)) && #[trigger] picked_sum(
                        items@,
                        mask,
                        items@.len(),
                    ) == x;
                assert(1 <= mask < i);
            }
            if unsorted.contains(x) {
                let mask = choose|mask: usize|
                    1 <= mask < i && #[trigger] picked_sum(items@, mask, len as nat) == x;
                assert(mask < total);
            }
        }
    }
    quick_sort(&mut all_size_list);
    proof {
        lemma_sorted_sizes(unsorted, all_size_list@);
    }
    all_size_list
}

/// A unit of the bag table: a choice of items by their names, and what it
/// is worth.
#[derive(Clone)]
pub struct Bag {
    value: u32,
    items: Vec<String>,
}

/// The names in a list, each as its characters.
pub open spec fn names_view(names: Seq<String>) -> Seq<Seq<char>> {
    names.map_values(|name: String| name@)
}

impl Bag {
    /// The value of the bag and the names in it.
    pub closed spec fn cell(&self) -> (u32, Seq<Seq<char>>) {
        (self.value, names_view(self.items@))
    }

    fn new(value: u32, items: Vec<String>) -> (bag: Bag)
        ensures
            bag.cell() == (value, names_view(items@)),
    {
        Bag { value: value, items: items }
    }
}

impl Default for Bag {
    /// The bag that holds nothing and is worth nothing.
    fn default() -> (bag: Bag)
        ensures
            bag.cell() == (0u32, Seq::<Seq<char>>::empty()),
    {
        let bag = Bag { value: 0, items: Vec::new() };
        assert(names_view(bag.items@) =~= Seq::<Seq<char>>::empty());
        bag
    }
}

/// A table of bags with a fixed number of rows and of columns, held in an
/// `ndarray::Array2<Bag>`.
#[verifier::external_body]
pub struct BagTable {
    cells: Array2<Bag>,
}

/// What the bags in the `Array2` of a table hold, row by row: of each bag
/// its value and the names in it.
pub uninterp spec fn bag_cells(table: BagTable) -> Seq<Seq<(u32, Seq<Seq<char>>)>>;

/// `Array2::default` with the shape `(rows, cols)`: a table of that many
/// rows and columns in which every bag is the default one, worth 0 and
/// without a name. It panics where the product of the lengths that are not
/// 0 is above `isize::MAX`, which the `requires` leaves out.
#[verifier::external_body]
fn bag_table_new(rows: usize, cols: usize) -> (table: BagTable)
    requires
        table_fits(rows as nat, cols as nat),
    ensures
        bag_cells(table).len() == rows,
        forall|i: int| 0 <= i < rows ==> (#[trigger] bag_cells(table)[i]).len() == cols,
        forall|i: int, j: int|
            0 <= i < rows && 0 <= j < cols ==> bag_cells(table)[i][j] == (
                0u32,
                Seq::<Seq<char>>::empty(),
            ),
{
    BagTable { cells: Array2::<Bag>::default((rows, cols)) }
}

/// Indexing an `Array2` at `[i, j]`: the value of the bag in row `i` and
/// column `j`. It panics out of bounds, which the `requires` leaves out.
#[verifier::external_body]
fn bag_table_value(table: &BagTable, i: usize, j: usize) -> (value: u32)
    requires
        i < bag_cells(*table).len(),
        j < bag_cells(*table)[i as int].len(),
    ensures
        value == bag_cells(*table)[i as int][j as int].0,
{
    table.cells[[i, j]].value
}

/// Indexing an `Array2` at `[i, j]`: the names in the bag in row `i` and
/// column `j`. It panics out of bounds, which the `requires` leaves out.
#[verifier::external_body]
fn bag_table_items(table: &BagTable, i: usize, j: usize) -> (names: &Vec<String>)
    requires
        i < bag_cells(*table).len(),
        j < bag_cells(*table)[i as int].len(),
    ensures
        names_view(names@) == bag_cells(*table)[i as int][j as int].1,
{
    &table.cells[[i, j]].items
}

/// Assigning to an `Array2` at `[i, j]`: `bag` becomes the bag in row `i`
/// and column `j`, and every other bag stays. It panics out of bounds,
/// which the `requires` leaves out.
#[verifier::external_body]
fn bag_table_set(table: &mut BagTable, i: usize, j: usize, bag: Bag)
    requires
        i < bag_cells(*old(table)).len(),
        j < bag_cells(*old(table))[i as int].len(),
    ensures
        bag_cells(*final(table)) == bag_cells(*old(table)).update(
            i as int,
            bag_cells(*old(table))[i as int].update(j as int, bag.cell()),
        ),
{
    table.cells[[i, j]] = bag;
}

/// What those of the first `upto` items that `pick` takes are worth
/// together.
pub open spec fn picked_value(items: Seq<Item>, pick: Seq<bool>, upto: nat) -> nat
    decreases upto,
{
    if upto == 0 {
        0
    } else {
        picked_value(items, pick, (upto - 1) as nat) + (if pick[upto - 1] {
            items[upto - 1].spec_value() as nat
        } else {
            0
        })
    }
}

/// The room that those of the first `upto` items that `pick` takes take
/// together.
pub open spec fn picked_size(items: Seq<Item>, pick: Seq<bool>, upto: nat) -> nat
    decreases upto,
{
    if upto == 0 {
        0
    } else {
        picked_size(items, pick, (upto - 1) as nat) + (if pick[upto - 1] {
            items[upto - 1].spec_size() as nat
        } else {
            0
        })
    }
}

/// The names of those of the first `upto` items that `pick` takes, in the
/// order of the items.
pub open spec fn picked_names(items: Seq<Item>, pick: Seq<bool>, upto: nat) -> Seq<Seq<char>>
    decreases upto,
{
    if upto == 0 {
        Seq::empty()
    } else if pick[upto - 1] {
        picked_names(items, pick, (upto - 1) as nat).push(items[upto - 1].spec_name())
    } else {
        picked_names(items, pick, (upto - 1) as nat)
    }
}

/// What all of the first `upto` items are worth together.
pub open spec fn all_value(items: Seq<Item>, upto: nat) -> nat
    decreases upto,
{
    if upto == 0 {
        0
    } else {
        all_value(items, (upto - 1) as nat) + items[upto - 1].spec_value() as nat
    }
}

/// The most that a choice among the first `upto` items can be worth if it
/// is to take no more room than `room`.
pub open spec fn best_value(items: Seq<Item>, upto: nat, room: nat) -> nat
    decreases upto,
{
    if upto == 0 {
        0
    } else {
        let without = best_value(items, (upto - 1) as nat, room);
        let size = items[upto - 1].spec_size() as nat;
        if size <= room {
            let with = items[upto - 1].spec_value() as nat + best_value(
                items,
                (upto - 1) as nat,
                (room - size) as nat,
            );
            if without > with {
                without
            } else {
                with
            }
        } else {
            without
        }
    }
}

/// `pick` is a choice among the first `upto` items, and of none behind
/// them, that takes no more room than `room`.
pub open spec fn fits(items: Seq<Item>, pick: Seq<bool>, upto: nat, room: nat) -> bool {
    &&& pick.len() == items.len()
    &&& upto <= items.len()
    &&& forall|j: int| upto <= j < pick.len() ==> !#[trigger] pick[j]
    &&& picked_size(items, pick, upto) <= room
}

/// The bag `cell` holds a best choice among the first `upto` items for the
/// room `room`: its value is the most that can be had, and its names are
/// those of a choice that fits and is worth that much.
pub open spec fn best_bag(
    items: Seq<Item>,
    upto: nat,
    room: nat,
    cell: (u32, Seq<Seq<char>>),
) -> bool {
    &&& cell.0 == best_value(items, upto, room)
    &&& exists|pick: Seq<bool>| #[trigger]
        fits(items, pick, upto, room) && picked_value(items, pick, upto) == cell.0
            && picked_names(items, pick, upto) == cell.1
}

/// A choice that takes none of the items from `upto` on is worth, takes
/// and is named at `upto + 1` what it is at `upto`; and two choices that
/// agree on the first `upto` items agree there on all three.
proof fn lemma_picks(items: Seq<Item>, p: Seq<bool>, q: Seq<bool>, upto: nat)
    requires
        forall|j: int| 0 <= j < upto ==> p[j] == q[j],
    ensures
        picked_value(items, p, upto) == picked_value(items, q, upto),
        picked_size(items, p, upto) == picked_size(items, q, upto),
        picked_names(items, p, upto) == picked_names(items, q, upto),
    decreases upto,
{
    if upto > 0 {
        lemma_picks(items, p, q, (upto - 1) as nat);
    }
}

/// No choice that fits is worth more than the best value.
proof fn lemma_best_is_best(items: Seq<Item>, pick: Seq<bool>, upto: nat, room: nat)
    requires
        picked_size(items, pick, upto) <= room,
    ensures
        picked_value(items, pick, upto) <= best_value(items, upto, room),
    decreases upto,
{
    if upto > 0 {
        let size = items[upto - 1].spec_size() as nat;
        if pick[upto - 1] {
            lemma_best_is_best(items, pick, (upto - 1) as nat, (room - size) as nat);
        } else {
            lemma_best_is_best(items, pick, (upto - 1) as nat, room);
        }
    }
}

/// Where every item takes room, nothing can be had without room.
proof fn lemma_nothing_without_room(items: Seq<Item>, upto: nat)
    requires
        upto <= items.len(),
        forall|j: int| 0 <= j < items.len() ==> (#[trigger] items[j]).spec_size() > 0,
    ensures
        best_value(items, upto, 0) == 0,
    decreases upto,
{
    if upto > 0 {
        lemma_nothing_without_room(items, (upto - 1) as nat);
    }
}

/// The best value is no more than what all the items are worth, and it
/// grows with the number of items.
proof fn lemma_best_within(items: Seq<Item>, upto: nat, more: nat, room: nat)
    requires
        upto <= more,
    ensures
        best_value(items, upto, room) <= all_value(items, upto),
        all_value(items, upto) <= all_value(items, more),
        best_value(items, upto, room) <= best_value(items, more, room),
    decreases more, upto,
{
    if upto > 0 {
        let size = items[upto - 1].spec_size() as nat;
        lemma_best_within(items, (upto - 1) as nat, (upto - 1) as nat, room);
        if size <= room {
            lemma_best_within(items, (upto - 1) as nat, (upto - 1) as nat, (room - size) as nat);
        }
    }
    if upto < more {
        lemma_best_within(items, upto, (more - 1) as nat, room);
    }
}

/// The first place of `x` in `list`.
pub open spec fn place(list: Seq<u32>, x: u32) -> int {
    choose|i: int|
        0 <= i < list.len() && list[i] == x && forall|j: int| 0 <= j < i ==> list[j] != x
}

/// A size that the list holds at `i` has its first place at `i` or before
/// it.
proof fn lemma_place(list: Seq<u32>, x: u32, i: int)
    requires
        0 <= i < list.len(),
        list[i] == x,
    ensures
        0 <= place(list, x) <= i,
        list[place(list, x)] == x,
        forall|j: int| 0 <= j < place(list, x) ==> list[j] != x,
    decreases i,
{
    if exists|j: int| 0 <= j < i && list[j] == x {
        let j = choose|j: int| 0 <= j < i && list[j] == x;
        lemma_place(list, x, j);
    } else {
        assert(0 <= i < list.len() && list[i] == x && forall|j: int| 0 <= j < i ==> list[j] != x);
    }
}

/// The first place of `value` in the list, if it is there.
fn get_bag_size_index(bag_size_list: &Vec<u32>, value: &u32) -> (index: Option<usize>)
    ensures
        index is Some <==> bag_size_list@.contains(*value),
        index matches Some(i) ==> i < bag_size_list.len() && bag_size_list@[i as int] == *value
            && i == place(bag_size_list@, *value),
{
    let mut i: usize = 0;
    while i < bag_size_list.len()
        invariant
            i <= bag_size_list.len(),
            forall|j: int| 0 <= j < i ==> bag_size_list@[j] != *value,
        decreases bag_size_list.len() - i,
    {
        if bag_size_list[i] == *value {
            proof {
                lemma_place(bag_size_list@, *value, i as int);
            }
            return Some(i);
        }
        i += 1;
    }
    None
}

/// A list with the same names.
fn copy_names(names: &Vec<String>) -> (copy: Vec<String>)
    ensures
        names_view(copy@) == names_view(names@),
{
    let mut copy: Vec<String> = Vec::new();
    let mut i: usize = 0;
    while i < names.len()
        invariant
            i <= names.len(),
            copy.len() == i,
            forall|j: int| 0 <= j < i ==> copy@[j]@ == names@[j]@,
        decreases names.len() - i,
    {
        copy.push(names[i].clone());
        i += 1;
    }
    proof {
        assert(names_view(copy@) =~= names_view(names@));
    }
    copy
}

/// The bag that holds nothing and is worth nothing.
pub open spec fn empty_bag() -> (u32, Seq<Seq<char>>) {
    (0u32, Seq::<Seq<char>>::empty())
}

/// The bag that holds `item` alone.
pub open spec fn alone(item: Item) -> (u32, Seq<Seq<char>>) {
    (item.spec_value(), seq![item.spec_name()])
}

/// The bag for a room that `item` fills: the item alone where it is worth
/// more than the bag `above`, else that bag.
pub open spec fn alone_or(item: Item, above: (u32, Seq<Seq<char>>)) -> (u32, Seq<Seq<char>>) {
    if item.spec_value() > above.0 {
        alone(item)
    } else {
        above
    }
}

/// The bag for a room that `item` does not fill: the bag `above` where it
/// is worth more than the item and the bag `beside` together, else the bag
/// `beside` with the item put behind what it holds.
pub open spec fn beside_or(
    item: Item,
    above: (u32, Seq<Seq<char>>),
    beside: (u32, Seq<Seq<char>>),
) -> (u32, Seq<Seq<char>>) {
    if above.0 > item.spec_value() + beside.0 {
        above
    } else {
        ((item.spec_value() + beside.0) as u32, beside.1.push(item.spec_name()))
    }
}

/// The bag in row `row` and column `col` once `update_largest_value` has
/// run there. In the first row it is the item of the row alone where the
/// room of the column takes it, and the bag that was there where it does
/// not. In every other row it is made of the bags of the row above: the one
/// in the same column where the item does not go into the room, the better
/// of that one and the item alone where the item fills the room, and where
/// room is left the better of that one and the item with the bag of the
/// column of the room that is left.
pub open spec fn filled(
    cells: Seq<Seq<(u32, Seq<Seq<char>>)>>,
    items: Seq<Item>,
    list: Seq<u32>,
    row: int,
    col: int,
) -> (u32, Seq<Seq<char>>) {
    let item = items[row];
    let room = list[col];
    if row == 0 {
        if item.spec_size() <= room {
            alone(item)
        } else {
            cells[row][col]
        }
    } else if room < item.spec_size() {
        cells[row - 1][col]
    } else if room == item.spec_size() {
        alone_or(item, cells[row - 1][col])
    } else {
        beside_or(
            item,
            cells[row - 1][col],
            cells[row - 1][place(list, (room - item.spec_size()) as u32)],
        )
    }
}

/// The bag in row `row` and column `col` of the table that is filled row
/// by row from a table of empty bags.
pub open spec fn packed(items: Seq<Item>, list: Seq<u32>, row: nat, col: int) -> (
    u32,
    Seq<Seq<char>>,
)
    decreases row,
{
    let item = items[row as int];
    let room = list[col];
    if row == 0 {
        if item.spec_size() <= room {
            alone(item)
        } else {
            empty_bag()
        }
    } else if room < item.spec_size() {
        packed(items, list, (row - 1) as nat, col)
    } else if room == item.spec_size() {
        alone_or(item, packed(items, list, (row - 1) as nat, col))
    } else {
        beside_or(
            item,
            packed(items, list, (row - 1) as nat, col),
            packed(items, list, (row - 1) as nat, place(list, (room - item.spec_size()) as u32)),
        )
    }
}

/// What the table must be for the bag in row `row` and column `col` to be
/// filled: of the right shape, and, where the item of the row leaves room
/// in the column, with that room among the sizes of the list and with a
/// bag for it in the row above that is worth no more beside the item than
/// `u32::MAX`.
spec fn fillable(
    cells: Seq<Seq<(u32, Seq<Seq<char>>)>>,
    items: Seq<Item>,
    list: Seq<u32>,
    row: int,
    col: int,
) -> bool {
    &&& 0 <= row < items.len()
    &&& 0 <= col < list.len()
    &&& cells.len() == items.len()
    &&& forall|r: int| 0 <= r < cells.len() ==> (#[trigger] cells[r]).len() == list.len()
    &&& row > 0 && list[col] > items[row].spec_size() ==> {
        let left = (list[col] - items[row].spec_size()) as u32;
        &&& list.contains(left)
        &&& items[row].spec_value() + cells[row - 1][place(list, left)].0 <= u32::MAX
    }
}

/// Fills the bag in row `row` and column `col` from the bags of the row
/// above: with the item of the row and what goes beside it, or with what is
/// best without it, whichever is worth more. No other bag changes.
fn update_largest_value(
    table: &mut BagTable,
    items: &Vec<Item>,
    bag_size_list: &Vec<u32>,
    row: usize,
    col: usize,
)
    requires
        fillable(bag_cells(*old(table)), items@, bag_size_list@, row as int, col as int),
    ensures
        bag_cells(*final(table)) == bag_cells(*old(table)).update(
            row as int,
            bag_cells(*old(table))[row as int].update(
                col as int,
                filled(bag_cells(*old(table)), items@, bag_size_list@, row as int, col as int),
            ),
        ),
{
    let ghost cells = bag_cells(*table);
    let item = &items[row];
    let cur_size = bag_size_list[col];
    if row == 0 {
        if item.size <= cur_size {
            let mut names: Vec<String> = Vec::new();
            names.push(item.name.clone());
            proof {
                assert(names_view(names@) =~= seq![item.name@]);
            }
            bag_table_set(table, row, col, Bag::new(item.value, names));
        } else {
            proof {
                assert(cells[row as int] =~= cells[row as int].update(
                    col as int,
                    cells[row as int][col as int],
                ));
                assert(cells =~= cells.update(row as int, cells[row as int]));
            }
        }
        return;
    }
    let pre_unit_value = bag_table_value(table, row - 1, col);
    let cur_item_value = item.value;
    if cur_size < item.size {
        let names = copy_names(bag_table_items(table, row - 1, col));
        bag_table_set(table, row, col, Bag::new(pre_unit_value, names));
        return;
    }
    let left_size = cur_size - item.size;
    if left_size == 0 {
        if cur_item_value > pre_unit_value {
            let mut names: Vec<String> = Vec::new();
            names.push(item.name.clone());
            proof {
                assert(names_view(names@) =~= seq![item.name@]);
            }
            bag_table_set(table, row, col, Bag::new(cur_item_value, names));
        } else {
            let names = copy_names(bag_table_items(table, row - 1, col));
            bag_table_set(table, row, col, Bag::new(pre_unit_value, names));
        }
        return;
    }
    let left_size_col = get_bag_size_index(bag_size_list, &left_size).unwrap();
    let left_size_value = bag_table_value(table, row - 1, left_size_col);
    if pre_unit_value > (cur_item_value + left_size_value) {
        let names = copy_names(bag_table_items(table, row - 1, col));
        bag_table_set(table, row, col, Bag::new(pre_unit_value, names));
    } else {
        let mut names = copy_names(bag_table_items(table, row - 1, left_size_col));
        let ghost copied = names@;
        names.push(item.name.clone());
        proof {
            assert(names_view(names@) =~= names_view(copied).push(item.name@));
        }
        bag_table_set(table, row, col, Bag::new(cur_item_value + left_size_value, names));
    }
}

/// Every item takes room.
pub open spec fn all_take_room(items: Seq<Item>) -> bool {
    forall|j: int| 0 <= j < items.len() ==> (#[trigger] items[j]).spec_size() > 0
}

/// A bag that is filled from bags in the row above that are worth no more
/// than the items of their rows together is worth no more than the items up
/// to its own row together.
proof fn lemma_filled_within(
    cells: Seq<Seq<(u32, Seq<Seq<char>>)>>,
    items: Seq<Item>,
    list: Seq<u32>,
    row: int,
    col: int,
)
    requires
        0 <= row < items.len(),
        0 <= col < list.len(),
        cells.len() == items.len(),
        forall|r: int| 0 <= r < cells.len() ==> (#[trigger] cells[r]).len() == list.len(),
        all_value(items, items.len()) <= u32::MAX,
        row == 0 ==> cells[0][col] == empty_bag(),
        row > 0 ==> forall|c: int|
            0 <= c < list.len() ==> (#[trigger] cells[row - 1][c]).0 <= all_value(items, row as nat),
        row > 0 && list[col] > items[row].spec_size() ==> list.contains(
            (list[col] - items[row].spec_size()) as u32,
        ),
    ensures
        filled(cells, items, list, row, col).0 <= all_value(items, (row + 1) as nat),
        fillable(cells, items, list, row, col),
{
    lemma_best_within(items, (row + 1) as nat, items.len(), 0);
    assert(all_value(items, (row + 1) as nat) == all_value(items, row as nat)
        + items[row].spec_value());
    if row > 0 && list[col] > items[row].spec_size() {
        let left = (list[col] - items[row].spec_size()) as u32;
        let i = choose|i: int| 0 <= i < list.len() && list[i] == left;
        lemma_place(list, left, i);
    }
}

/// Where every item takes room, a bag that is filled from best bags in the
/// row above is a best bag itself.
proof fn lemma_filled_is_best(
    cells: Seq<Seq<(u32, Seq<Seq<char>>)>>,
    items: Seq<Item>,
    list: Seq<u32>,
    row: int,
    col: int,
)
    requires
        0 <= row < items.len(),
        0 <= col < list.len(),
        cells.len() == items.len(),
        forall|r: int| 0 <= r < cells.len() ==> (#[trigger] cells[r]).len() == list.len(),
        all_take_room(items),
        all_value(items, items.len()) <= u32::MAX,
        row == 0 ==> cells[0][col] == empty_bag(),
        row > 0 ==> forall|c: int|
            0 <= c < list.len() ==> best_bag(
                items,
                row as nat,
                list[c] as nat,
                #[trigger] cells[row - 1][c],
            ),
        row > 0 && list[col] > items[row].spec_size() ==> list.contains(
            (list[col] - items[row].spec_size()) as u32,
        ),
    ensures
        best_bag(items, (row + 1) as nat, list[col] as nat, filled(cells, items, list, row, col)),
{
    let n = items.len();
    let item = items[row];
    let room = list[col] as nat;
    let up = (row + 1) as nat;
    lemma_best_within(items, up, n, room);
    if row == 0 {
        if item.spec_size() <= list[col] {
            let pick = Seq::new(n, |j: int| j == 0);
            assert(picked_names(items, pick, 0) =~= Seq::<Seq<char>>::empty());
            assert(picked_names(items, pick, 1) =~= seq![item.spec_name()]);
            assert(picked_value(items, pick, 0) == 0);
            assert(picked_size(items, pick, 0) == 0);
            assert(picked_value(items, pick, 1) == item.spec_value());
            assert(picked_size(items, pick, 1) == item.spec_size());
            assert(fits(items, pick, 1, room));
            assert(best_value(items, 0, room) == 0);
            assert(best_value(items, 0, (room - item.spec_size()) as nat) == 0);
            assert(best_value(items, 1, room) == item.spec_value());
        } else {
            let pick = Seq::new(n, |j: int| false);
            lemma_nothing_picked(items, pick, 1);
            assert(fits(items, pick, 1, room));
            assert(best_value(items, 0, room) == 0);
            assert(best_value(items, 1, room) == 0);
        }
    } else {
        let above = cells[row - 1][col];
        assert(best_bag(items, row as nat, room, above));
        let kept = choose|pick: Seq<bool>| #[trigger]
            fits(items, pick, row as nat, room) && picked_value(items, pick, row as nat) == above.0
                && picked_names(items, pick, row as nat) == above.1;
        assert(fits(items, kept, up, room));
        if list[col] < item.spec_size() {
        } else if list[col] == item.spec_size() {
            lemma_nothing_without_room(items, row as nat);
            if item.spec_value() > above.0 {
                let none = Seq::new(n, |j: int| false);
                let pick = none.update(row, true);
                lemma_nothing_picked(items, none, row as nat);
                lemma_picks(items, none, pick, row as nat);
                assert(seq![item.spec_name()] =~= picked_names(items, pick, up));
                assert(fits(items, pick, up, room));
            }
        } else {
            let left = (list[col] - item.spec_size()) as u32;
            let i = choose|i: int| 0 <= i < list.len() && list[i] == left;
            lemma_place(list, left, i);
            let beside = cells[row - 1][place(list, left)];
            assert(best_bag(items, row as nat, left as nat, beside));
            lemma_best_within(items, row as nat, row as nat, left as nat);
            lemma_best_within(items, row as nat, n, left as nat);
            assert(all_value(items, up) == all_value(items, row as nat) + item.spec_value());
            if above.0 > item.spec_value() + beside.0 {
            } else {
                let p = choose|pick: Seq<bool>| #[trigger]
                    fits(items, pick, row as nat, left as nat) && picked_value(
                        items,
                        pick,
                        row as nat,
                    ) == beside.0 && picked_names(items, pick, row as nat) == beside.1;
                let pick = p.update(row, true);
                lemma_picks(items, p, pick, row as nat);
                assert(beside.1.push(item.spec_name()) =~= picked_names(items, pick, up));
                assert(fits(items, pick, up, room));
            }
        }
    }
}

/// A choice of nothing is worth nothing, takes no room and has no name.
proof fn lemma_nothing_picked(items: Seq<Item>, none: Seq<bool>, upto: nat)
    requires
        forall|j: int| 0 <= j < upto ==> !none[j],
    ensures
        picked_value(items, none, upto) == 0,
        picked_size(items, none, upto) == 0,
        picked_names(items, none, upto) =~= Seq::<Seq<char>>::empty(),
    decreases upto,
{
    if upto > 0 {
        lemma_nothing_picked(items, none, (upto - 1) as nat);
    }
}

/// A choice that takes none of the items from `from` up to `upto` is worth,
/// takes and is named at `upto` what it is at `from`.
proof fn lemma_rest_not_picked(items: Seq<Item>, pick: Seq<bool>, from: nat, upto: nat)
    requires
        from <= upto,
        forall|j: int| from <= j < upto ==> !pick[j],
    ensures
        picked_value(items, pick, upto) == picked_value(items, pick, from),
        picked_size(items, pick, upto) == picked_size(items, pick, from),
        picked_names(items, pick, upto) == picked_names(items, pick, from),
    decreases upto,
{
    if from < upto {
        lemma_rest_not_picked(items, pick, from, (upto - 1) as nat);
    }
}

/// A strictly sorted list holds at each place at least the number of the
/// place, so it is no longer than its last size and one.
proof fn lemma_list_len(list: Seq<u32>, i: int)
    requires
        strictly_sorted(list),
        0 <= i < list.len(),
    ensures
        list[i] >= i,
    decreases i,
{
    if i > 0 {
        lemma_list_len(list, i - 1);
        assert(lt(list[i - 1], list[i]));
    }
}

/// What `bag_problem` asks of the items: there are fewer of them than a
/// `usize` has bits; together they take no more room than `u32::MAX` and
/// are worth no more; a table with a row for each item and a column for
/// each size up to the largest can be made; and whatever room one of the
/// bag sizes leaves beside an item but the first is a bag size itself.
pub open spec fn packable(items: Seq<Item>) -> bool {
    &&& items.len() < usize::BITS
    &&& all_sum(items, items.len()) <= u32::MAX
    &&& all_value(items, items.len()) <= u32::MAX
    &&& table_fits(items.len(), max_size(items, items.len()) + 1)
    &&& forall|r: int, x: u32|
        1 <= r < items.len() && is_bag_size(items, x) && x > (#[trigger] items[r]).spec_size()
            ==> #[trigger] is_bag_size(items, (x - items[r].spec_size()) as u32)
}

/// `names` are the names of a best choice among the items for the room
/// `room`: of a choice that takes no more room and is worth as much as any
/// that takes no more.
pub open spec fn is_best_choice(items: Seq<Item>, room: nat, names: Seq<Seq<char>>) -> bool {
    exists|pick: Seq<bool>| #[trigger]
        fits(items, pick, items.len(), room) && picked_names(items, pick, items.len()) == names
            && forall|other: Seq<bool>| #[trigger]
            fits(items, other, items.len(), room) ==> picked_value(items, other, items.len())
                <= picked_value(items, pick, items.len())
}

/// `list` is the list of the bag sizes of the items, in ascending order.
pub open spec fn is_size_list(items: Seq<Item>, list: Seq<u32>) -> bool {
    &&& strictly_sorted(list)
    &&& forall|x: u32| #[trigger] list.contains(x) <==> is_bag_size(items, x)
}

/// `row` is the first of the rows whose bag in column `col` of the filled
/// table is worth most.
pub open spec fn is_first_best_row(items: Seq<Item>, list: Seq<u32>, col: int, row: int) -> bool {
    &&& 0 <= row < items.len()
    &&& forall|r: int|
        0 <= r < items.len() ==> (#[trigger] packed(items, list, r as nat, col)).0 <= packed(
            items,
            list,
            row as nat,
            col,
        ).0
    &&& forall|r: int|
        0 <= r < row ==> (#[trigger] packed(items, list, r as nat, col)).0 < packed(
            items,
            list,
            row as nat,
            col,
        ).0
}

/// Generate bag problem table, returning a tuple of bag table, size list and items name list.
///
/// The bag in the row of an item and the column of a size is the one that
/// `packed` gives. Where every item takes room, it holds a best choice
/// among the items up to that one for that size.
pub fn calc_bag_problem_table<'a>(items: &'a Vec<Item>) -> (res: (BagTable, Vec<u32>, Vec<&'a str>))
    requires
        packable(items@),
    ensures
        is_size_list(items@, res.1@),
        bag_cells(res.0).len() == items.len(),
        forall|r: int| 0 <= r < items.len() ==> (#[trigger] bag_cells(res.0)[r]).len() == res.1.len(),
        forall|r: int, c: int|
            0 <= r < items.len() && 0 <= c < res.1.len() ==> #[trigger] bag_cells(res.0)[r][c]
                == packed(items@, res.1@, r as nat, c),
        all_take_room(items@) ==> forall|r: int, c: int|
            0 <= r < items.len() && 0 <= c < res.1.len() ==> best_bag(
                items@,
                (r + 1) as nat,
                res.1@[c] as nat,
                #[trigger] bag_cells(res.0)[r][c],
            ),
        res.2.len() == items.len(),
        forall|i: int| 0 <= i < items.len() ==> (#[trigger] res.2@[i])@ == items@[i].spec_name(),
{
    let bag_size_list = gen_bag_size_list(items);
    let rows = items.len();
    let cols = bag_size_list.len();
    proof {
        lemma_key_type_u32();
        let m = max_size(items@, items@.len());
        if cols > 0 {
            lemma_list_len(bag_size_list@, cols - 1);
            assert(bag_size_list@.contains(bag_size_list@[cols - 1]));
        }
        assert(cols <= m + 1);
        assert(table_fits(rows as nat, cols as nat)) by (nonlinear_arith)
            requires
                table_fits(rows as nat, (m + 1) as nat),
                cols <= m + 1,
                rows >= 0,
                cols >= 0,
        ;
    }
    let mut bag_table = bag_table_new(rows, cols);
    let mut i: usize = 0;
    while i < rows
        invariant
            i <= rows,
            rows == items.len(),
            cols == bag_size_list.len(),
            packable(items@),
            is_size_list(items@, bag_size_list@),
            bag_cells(bag_table).len() == rows,
            forall|r: int| 0 <= r < rows ==> (#[trigger] bag_cells(bag_table)[r]).len() == cols,
            forall|r: int, c: int|
                0 <= r < i && 0 <= c < cols ==> {
                    &&& #[trigger] bag_cells(bag_table)[r][c] == packed(
                        items@,
                        bag_size_list@,
                        r as nat,
                        c,
                    )
                    &&& bag_cells(bag_table)[r][c].0 <= all_value(items@, (r + 1) as nat)
                    &&& all_take_room(items@) ==> best_bag(
                        items@,
                        (r + 1) as nat,
                        bag_size_list@[c] as nat,
                        bag_cells(bag_table)[r][c],
                    )
                },
            forall|r: int, c: int|
                i <= r < rows && 0 <= c < cols ==> #[trigger] bag_cells(bag_table)[r][c]
                    == empty_bag(),
        decreases rows - i,
    {
        let mut j: usize = 0;
        while j < cols
            invariant
                i < rows,
                j <= cols,
                rows == items.len(),
                cols == bag_size_list.len(),
                packable(items@),
                is_size_list(items@, bag_size_list@),
                bag_cells(bag_table).len() == rows,
                forall|r: int| 0 <= r < rows ==> (#[trigger] bag_cells(bag_table)[r]).len() == cols,
                forall|r: int, c: int|
                    (0 <= r < i && 0 <= c < cols) || (r == i && 0 <= c < j) ==> {
                        &&& #[trigger] bag_cells(bag_table)[r][c] == packed(
                            items@,
                            bag_size_list@,
                            r as nat,
                            c,
                        )
                        &&& bag_cells(bag_table)[r][c].0 <= all_value(items@, (r + 1) as nat)
                        &&& all_take_room(items@) ==> best_bag(
                            items@,
                            (r + 1) as nat,
                            bag_size_list@[c] as nat,
                            bag_cells(bag_table)[r][c],
                        )
                    },
                forall|r: int, c: int|
                    (i < r < rows && 0 <= c < cols) || (r == i && j <= c < cols)
                        ==> #[trigger] bag_cells(bag_table)[r][c] == empty_bag(),
            decreases cols - j,
        {
            let ghost before = bag_cells(bag_table);
            proof {
                let list = bag_size_list@;
                assert(list.contains(list[j as int]));
                if i > 0 {
                    assert forall|c: int| 0 <= c < cols implies (#[trigger] before[i - 1][c]).0
                        <= all_value(items@, i as nat) by {}
                    if list[j as int] > items@[i as int].spec_size() {
                        let left = (list[j as int] - items@[i as int].spec_size()) as u32;
                        assert(is_bag_size(items@, left));
                        assert(list.contains(left));
                        let k = choose|k: int| 0 <= k < list.len() && list[k] == left;
                        lemma_place(list, left, k);
                    }
                }
                lemma_filled_within(before, items@, list, i as int, j as int);
                if all_take_room(items@) {
                    if i > 0 {
                        assert forall|c: int| 0 <= c < cols implies best_bag(
                            items@,
                            i as nat,
                            list[c] as nat,
                            #[trigger] before[i - 1][c],
                        ) by {}
                    }
                    lemma_filled_is_best(before, items@, list, i as int, j as int);
                }
            }
            update_largest_value(&mut bag_table, items, &bag_size_list, i, j);
            proof {
                let after = bag_cells(bag_table);
                assert forall|r: int, c: int|
                    0 <= r < rows && 0 <= c < cols && !(r == i && c == j) implies after[r][c]
                    == before[r][c] by {}
                assert(after[i as int][j as int] == filled(
                    before,
                    items@,
                    bag_size_list@,
                    i as int,
                    j as int,
                ));
                assert(after[i as int][j as int] == packed(
                    items@,
                    bag_size_list@,
                    i as nat,
                    j as int,
                ));
            }
            j += 1;
        }
        i += 1;
    }

    let mut items_name_list: Vec<&'a str> = Vec::new();
    let mut k: usize = 0;
    while k < items.len()
        invariant
            k <= items.len(),
            items_name_list.len() == k,
            forall|i: int| 0 <= i < k ==> (#[trigger] items_name_list@[i])@ == items@[i].spec_name(),
        decreases items.len() - k,
    {
        items_name_list.push(items[k].name.as_str());
        k += 1;
    }
    (bag_table, bag_size_list, items_name_list)
}

/// The names in the bag for the size `bag_size`, from the first of the rows
/// of the filled table whose bag in the column of that size is worth most.
/// Where every item takes room, they are the names of a best choice among
/// the items for a bag of that size: of items that go into the bag together
/// and are worth as much as any that do. There must be an item, the items
/// must be packable, and `bag_size` must be one of the bag sizes.
pub fn bag_problem(items: &Vec<Item>, bag_size: u32) -> (names: Vec<String>)
    requires
        items.len() > 0,
        packable(items@),
        is_bag_size(items@, bag_size),
    ensures
        exists|list: Seq<u32>, row: int|
            is_size_list(items@, list) && #[trigger] is_first_best_row(
                items@,
                list,
                place(list, bag_size),
                row,
            ) && names_view(names@) == packed(items@, list, row as nat, place(list, bag_size)).1,
        all_take_room(items@) ==> is_best_choice(items@, bag_size as nat, names_view(names@)),
{
    let (bag_table, bag_size_list, _) = calc_bag_problem_table(items);

    let mut best_value_seen: u32 = 0;
    let mut item_row: usize = 0;
    let item_col = get_bag_size_index(&bag_size_list, &bag_size).unwrap();
    let ghost cells = bag_cells(bag_table);
    let ghost room = bag_size as nat;
    let ghost n = items@.len();

    let mut i: usize = 0;
    while i < items.len()
        invariant
            i <= items.len(),
            item_row < items.len(),
            item_row < i || item_row == 0,
            cells == bag_cells(bag_table),
            cells.len() == items.len(),
            item_col < bag_size_list.len(),
            forall|r: int| 0 <= r < items.len() ==> (#[trigger] cells[r]).len() == bag_size_list.len(),
            forall|r: int| 0 <= r < i ==> (#[trigger] cells[r])[item_col as int].0 <= best_value_seen,
            forall|r: int|
                0 <= r < item_row ==> (#[trigger] cells[r])[item_col as int].0
                    < cells[item_row as int][item_col as int].0,
            best_value_seen == cells[item_row as int][item_col as int].0 || (best_value_seen == 0
                && item_row == 0),
        decreases items.len() - i,
    {
        let value = bag_table_value(&bag_table, i, item_col);
        if value > best_value_seen {
            best_value_seen = value;
            item_row = i;
        }
        i += 1;
    }

    let names = copy_names(bag_table_items(&bag_table, item_row, item_col));
    proof {
        let its = items@;
        let list = bag_size_list@;
        let cell = cells[item_row as int][item_col as int];
        assert(cells[0][item_col as int].0 <= best_value_seen);
        assert forall|r: int| 0 <= r < n implies (#[trigger] packed(
            its,
            list,
            r as nat,
            item_col as int,
        )).0 <= packed(its, list, item_row as nat, item_col as int).0 by {
            assert(cells[r][item_col as int] == packed(its, list, r as nat, item_col as int));
        }
        assert forall|r: int| 0 <= r < item_row implies (#[trigger] packed(
            its,
            list,
            r as nat,
            item_col as int,
        )).0 < packed(its, list, item_row as nat, item_col as int).0 by {
            assert(cells[r][item_col as int] == packed(its, list, r as nat, item_col as int));
        }
        assert(is_first_best_row(its, list, place(list, bag_size), item_row as int));
        if all_take_room(its) {
            let last = cells[n - 1][item_col as int];
            assert(best_bag(its, (item_row + 1) as nat, room, cell));
            assert(best_bag(its, n, room, last));
            lemma_best_within(its, (item_row + 1) as nat, n, room);
            assert(cell.0 == best_value(its, n, room));
            let pick = choose|pick: Seq<bool>| #[trigger]
                fits(its, pick, (item_row + 1) as nat, room) && picked_value(
                    its,
                    pick,
                    (item_row + 1) as nat,
                ) == cell.0 && picked_names(its, pick, (item_row + 1) as nat) == cell.1;
            lemma_rest_not_picked(its, pick, (item_row + 1) as nat, n);
            assert(fits(its, pick, n, room));
            assert forall|other: Seq<bool>| #[trigger]
                fits(its, other, n, room) implies picked_value(its, other, n) <= picked_value(
                its,
                pick,
                n,
            ) by {
                lemma_best_is_best(its, other, n, room);
            }
        }
    }
    names
}

} // verus!
