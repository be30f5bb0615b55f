//! The order in which numbered kernel nodes are taken: by class, then by number, then by
//! name, then as they were listed.

use vstd::prelude::*;

verus! {

/// What an entry is ordered by.
#[derive(Debug)]
pub struct Key {
    /// Which kind of entry this is; smaller kinds come first.
    pub class: u32,
    /// The entry's number.
    pub number: u32,
    /// The entry's name, compared character by character.
    pub name: Vec<char>,
}

/// The value of a [`Key`].
pub struct KeyView {
    pub class: u32,
    pub number: u32,
    pub name: Seq<char>,
}

impl View for Key {
    type V = KeyView;

    open spec fn view(&self) -> KeyView {
        KeyView { class: self.class, number: self.number, name: self.name@ }
    }
}

/// The values of many keys.
pub open spec fn views(keys: Seq<Key>) -> Seq<KeyView> {
    keys.map_values(|k: Key| k@)
}

/// Whether the name `a` comes before `b`: a proper prefix first, otherwise the one with
/// the smaller character where they first differ.
pub open spec fn name_lt(a: Seq<char>, b: Seq<char>) -> bool
    decreases a.len(),
{
    if b.len() == 0 {
        false
    } else if a.len() == 0 {
        true
    } else if a[0] != b[0] {
        a[0] < b[0]
    } else {
        name_lt(a.skip(1), b.skip(1))
    }
}

/// Whether the key `a` comes before `b`.
pub open spec fn key_lt(a: KeyView, b: KeyView) -> bool {
    ||| a.class < b.class
    ||| a.class == b.class && a.number < b.number
    ||| a.class == b.class && a.number == b.number && name_lt(a.name, b.name)
}

/// Whether entry `i` comes before entry `j`. Entries with equal keys keep the order in
/// which they were listed.
pub open spec fn precedes(keys: Seq<KeyView>, i: int, j: int) -> bool {
    key_lt(keys[i], keys[j]) || (keys[i] == keys[j] && i < j)
}

/// Whether entry `i` comes before every other entry.
pub open spec fn is_first(keys: Seq<KeyView>, i: int) -> bool {
    &&& 0 <= i < keys.len()
    &&& forall|j: int| 0 <= j < keys.len() && j != i ==> #[trigger] precedes(keys, i, j)
}

/// The entry that comes before every other entry.
pub open spec fn first_of(keys: Seq<KeyView>) -> int {
    choose|i: int| is_first(keys, i)
}

/// Whether `order` lists every entry once, each before those that it precedes.
pub open spec fn is_order(keys: Seq<KeyView>, order: Seq<usize>) -> bool {
    &&& order.len() == keys.len()
    &&& forall|a: int| 0 <= a < order.len() ==> #[trigger] order[a] < keys.len()
    &&& forall|a: int, b: int|
        0 <= a < b < order.len() ==> #[trigger] precedes(keys, order[a] as int, order[b] as int)
}

proof fn lemma_name_irreflexive(a: Seq<char>)
    ensures
        !name_lt(a, a),
    decreases a.len(),
{
    if a.len() > 0 {
        lemma_name_irreflexive(a.skip(1));
    }
}

proof fn lemma_name_transitive(a: Seq<char>, b: Seq<char>, c: Seq<char>)
    requires
        name_lt(a, b),
        name_lt(b, c),
    ensures
        name_lt(a, c),
    decreases a.len(),
{
    if a.len() > 0 && a[0] == b[0] && b[0] == c[0] {
        lemma_name_transitive(a.skip(1), b.skip(1), c.skip(1));
    }
}

proof fn lemma_name_total(a: Seq<char>, b: Seq<char>)
    ensures
        name_lt(a, b) || name_lt(b, a) || a == b,
    decreases a.len(),
{
    if a.len() > 0 && b.len() > 0 && a[0] == b[0] {
        lemma_name_total(a.skip(1), b.skip(1));
        if a.skip(1) == b.skip(1) {
            assert(a == seq![a[0]] + a.skip(1));
            assert(b == seq![b[0]] + b.skip(1));
        }
    } else if a.len() == 0 && b.len() == 0 {
        assert(a == b);
    }
}

proof fn lemma_precedes_transitive(keys: Seq<KeyView>, i: int, j: int, k: int)
    requires
        precedes(keys, i, j),
        precedes(keys, j, k),
    ensures
        precedes(keys, i, k),
{
    let (a, b, c) = (keys[i].name, keys[j].name, keys[k].name);
    if name_lt(a, b) && name_lt(b, c) {
        lemma_name_transitive(a, b, c);
    }
}

pub proof fn lemma_key_lt_asymmetric(a: KeyView, b: KeyView)
    requires
        key_lt(a, b),
    ensures
        !key_lt(b, a),
        a != b,
{
    if name_lt(a.name, b.name) && name_lt(b.name, a.name) {
        lemma_name_transitive(a.name, b.name, a.name);
    }
    lemma_name_irreflexive(a.name);
}

proof fn lemma_precedes_total(keys: Seq<KeyView>, i: int, j: int)
    requires
        i != j,
    ensures
        precedes(keys, i, j) || precedes(keys, j, i),
{
    lemma_name_total(keys[i].name, keys[j].name);
}

proof fn lemma_precedes_irreflexive(keys: Seq<KeyView>, i: int)
    ensures
        !precedes(keys, i, i),
{
    lemma_name_irreflexive(keys[i].name);
}

/// Whether the name `a` comes before `b`.
fn name_before(a: &[char], b: &[char]) -> (r: bool)
    ensures
        r == name_lt(a@, b@),
{
    let mut i: usize = 0;
    assert(a@.skip(0) == a@);
    assert(b@.skip(0) == b@);
    while i < a.len() && i < b.len()
        invariant
            i <= a@.len(),
            i <= b@.len(),
            name_lt(a@, b@) == name_lt(a@.skip(i as int), b@.skip(i as int)),
        decreases a@.len() - i,
    {
        if a[i] != b[i] {
            return a[i] < b[i];
        }
        assert(a@.skip(i as int).skip(1) == a@.skip(i + 1));
        assert(b@.skip(i as int).skip(1) == b@.skip(i + 1));
        i = i + 1;
    }
    i < b.len()
}

/// Whether the key `a` comes before `b`.
fn key_before(a: &Key, b: &Key) -> (r: bool)
    ensures
        r == key_lt(a@, b@),
{
    if a.class != b.class {
        a.class < b.class
    } else if a.number != b.number {
        a.number < b.number
    } else {
        name_before(a.name.as_slice(), b.name.as_slice())
    }
}

/// The entry that comes before all others, if there is any entry.
pub fn first(keys: &Vec<Key>) -> (r: Option<usize>)
    ensures
        match r {
            Some(i) => is_first(views(keys@), i as int) && i == first_of(views(keys@)),
            None => keys@.len() == 0,
        },
{
    if keys.len() == 0 {
        return None;
    }
    let ghost all = views(keys@);
    let mut best: usize = 0;
    let mut i: usize = 1;
    while i < keys.len()
        invariant
            all == views(keys@),
            best < i <= keys@.len(),
            forall|j: int| 0 <= j < i && j != best ==> #[trigger] precedes(all, best as int, j),
        decreases keys@.len() - i,
    {
        let ghost old_best = best;
        if key_before(&keys[i], &keys[best]) {
            best = i;
            assert(precedes(all, i as int, old_best as int));
            assert forall|j: int| 0 <= j < i + 1 && j != best implies #[trigger] precedes(
                all,
                best as int,
                j,
            ) by {
                if j != old_best {
                    lemma_precedes_transitive(all, i as int, old_best as int, j);
                }
            }
        } else {
            proof {
                lemma_precedes_total(all, i as int, best as int);
            }
        }
        i = i + 1;
    }
    proof {
        assert(is_first(all, best as int));
        law_first_is_unique(all, best as int, first_of(all));
    }
    Some(best)
}

/// All entries in order.
pub fn in_order(keys: &Vec<Key>) -> (order: Vec<usize>)
    ensures
        is_order(views(keys@), order@),
{
    let ghost all = views(keys@);
    let mut order: Vec<usize> = Vec::new();
    let mut i: usize = 0;
    while i < keys.len()
        invariant
            all == views(keys@),
            i <= keys@.len(),
            order@.len() == i,
            forall|a: int| 0 <= a < i ==> #[trigger] order@[a] < i,
            forall|a: int, b: int|
                0 <= a < b < i ==> #[trigger] precedes(all, order@[a] as int, order@[b] as int),
        decreases keys@.len() - i,
    {
        let ghost before = order@;
        let mut p: usize = i;
        while p > 0 && key_before(&keys[i], &keys[order[p - 1]])
            invariant
                all == views(keys@),
                p <= i < keys@.len(),
                order@ == before,
                before.len() == i,
                forall|a: int| 0 <= a < i ==> #[trigger] before[a] < i,
                forall|a: int| p <= a < i ==> #[trigger] key_lt(all[i as int], all[before[a] as int]),
            decreases p,
        {
            p = p - 1;
        }
        order.insert(p, i);
        proof {
            if p > 0 {
                lemma_precedes_total(all, before[p - 1] as int, i as int);
                assert(precedes(all, before[p - 1] as int, i as int));
            }
            assert forall|a: int, b: int| 0 <= a < b < i + 1 implies #[trigger] precedes(
                all,
                order@[a] as int,
                order@[b] as int,
            ) by {
                if b == p {
                    if a < p - 1 {
                        assert(precedes(all, before[a] as int, before[p - 1] as int));
                        lemma_precedes_transitive(
                            all,
                            before[a] as int,
                            before[p - 1] as int,
                            i as int,
                        );
                    }
                } else if a == p {
                    assert(order@[b] == before[b - 1]);
                    assert(key_lt(all[i as int], all[before[b - 1] as int]));
                } else {
                    let x = if a < p {
                        a
                    } else {
                        a - 1
                    };
                    let y = if b < p {
                        b
                    } else {
                        b - 1
                    };
                    assert(order@[a] == before[x]);
                    assert(order@[b] == before[y]);
                    assert(precedes(all, before[x] as int, before[y] as int));
                }
            }
        }
        i = i + 1;
    }
    order
}

/// At most one entry comes before all others.
pub proof fn law_first_is_unique(keys: Seq<KeyView>, i: int, j: int)
    requires
        is_first(keys, i),
        is_first(keys, j),
    ensures
        i == j,
{
    if i != j {
        assert(precedes(keys, i, j));
        assert(precedes(keys, j, i));
        lemma_precedes_transitive(keys, i, j, i);
        lemma_precedes_irreflexive(keys, i);
    }
}

/// Among any entries at all, one comes before all others.
pub proof fn law_some_entry_is_first(keys: Seq<KeyView>)
    requires
        keys.len() > 0,
    ensures
        is_first(keys, first_of(keys)),
{
    let i = lemma_first_exists(keys, keys.len() as int);
    assert(is_first(keys, i));
}

proof fn lemma_first_exists(keys: Seq<KeyView>, n: int) -> (i: int)
    requires
        0 < n <= keys.len(),
    ensures
        0 <= i < n,
        forall|j: int| 0 <= j < n && j != i ==> #[trigger] precedes(keys, i, j),
    decreases n,
{
    if n == 1 {
        0
    } else {
        let best = lemma_first_exists(keys, n - 1);
        lemma_precedes_total(keys, best, n - 1);
        if precedes(keys, best, n - 1) {
            best
        } else {
            assert forall|j: int| 0 <= j < n && j != n - 1 implies #[trigger] precedes(
                keys,
                n - 1,
                j,
            ) by {
                if j != best {
                    lemma_precedes_transitive(keys, n - 1, best, j);
                }
            }
            n - 1
        }
    }
}

/// An order leaves no entry out.
pub proof fn law_order_lists_every_entry(keys: Seq<KeyView>, order: Seq<usize>, i: int)
    requires
        is_order(keys, order),
        0 <= i < keys.len(),
    ensures
        exists|a: int| 0 <= a < order.len() && order[a] == i,
{
    let listed = order.map_values(|u: usize| u as int);
    assert forall|a: int, b: int| 0 <= a < b < listed.len() implies listed[a] != listed[b] by {
        assert(precedes(keys, order[a] as int, order[b] as int));
        lemma_precedes_irreflexive(keys, order[a] as int);
    }
    assert(listed.no_duplicates());
    listed.unique_seq_to_set();
    let all = vstd::set_lib::set_int_range(0, keys.len() as int);
    vstd::set_lib::lemma_int_range(0, keys.len() as int);
    assert(listed.to_set().subset_of(all));
    vstd::set_lib::lemma_subset_equality(listed.to_set(), all);
    assert(listed.to_set().contains(i));
    let a = choose|a: int| 0 <= a < listed.len() && listed[a] == i;
    assert(order[a] == i);
}

/// There is only one order: how it was found cannot show.
pub proof fn law_order_is_unique(keys: Seq<KeyView>, one: Seq<usize>, other: Seq<usize>)
    requires
        is_order(keys, one),
        is_order(keys, other),
    ensures
        one == other,
{
    assert forall|k: int| 0 <= k < one.len() implies one[k] == other[k] by {
        lemma_orders_agree(keys, one, other, k);
    }
}

proof fn lemma_orders_agree(keys: Seq<KeyView>, one: Seq<usize>, other: Seq<usize>, k: int)
    requires
        is_order(keys, one),
        is_order(keys, other),
        0 <= k < one.len(),
    ensures
        one[k] == other[k],
    decreases k,
{
    assert forall|j: int| 0 <= j < k implies one[j] == other[j] by {
        lemma_orders_agree(keys, one, other, j);
    }
    if one[k] != other[k] {
        lemma_stands_later(keys, one, other, k);
        lemma_stands_later(keys, other, one, k);
        lemma_precedes_transitive(keys, one[k] as int, other[k] as int, one[k] as int);
        lemma_precedes_irreflexive(keys, one[k] as int);
    }
}

proof fn lemma_stands_later(keys: Seq<KeyView>, one: Seq<usize>, other: Seq<usize>, k: int)
    requires
        is_order(keys, one),
        is_order(keys, other),
        0 <= k < one.len(),
        forall|j: int| 0 <= j < k ==> one[j] == other[j],
        one[k] != other[k],
    ensures
        precedes(keys, other[k] as int, one[k] as int),
{
    law_order_lists_every_entry(keys, other, one[k] as int);
    let a = choose|a: int| 0 <= a < other.len() && other[a] == one[k];
    if a < k {
        assert(one[a] == other[a]);
        assert(precedes(keys, one[a] as int, one[k] as int));
        lemma_precedes_irreflexive(keys, one[k] as int);
    }
    assert(precedes(keys, other[k] as int, other[a] as int));
}

/// Whether each key comes before all that follow it.
pub open spec fn ascending(keys: Seq<KeyView>) -> bool {
    forall|i: int, j: int| 0 <= i < j < keys.len() ==> #[trigger] key_lt(keys[i], keys[j])
}

/// Keys in ascending order are determined by which keys they are.
pub proof fn law_ascending_keys_are_unique(one: Seq<KeyView>, other: Seq<KeyView>)
    requires
        ascending(one),
        ascending(other),
        forall|k: KeyView| one.contains(k) <==> other.contains(k),
    ensures
        one == other,
{
    if one.len() > 0 {
        lemma_ascending_agree(one, other, one.len() - 1);
    }
    if other.len() > 0 {
        lemma_ascending_agree(other, one, other.len() - 1);
    }
    assert forall|i: int| 0 <= i < one.len() implies one[i] == other[i] by {
        lemma_ascending_agree(one, other, i);
    }
}

proof fn lemma_ascending_agree(one: Seq<KeyView>, other: Seq<KeyView>, i: int)
    requires
        ascending(one),
        ascending(other),
        forall|k: KeyView| one.contains(k) <==> other.contains(k),
        0 <= i < one.len(),
    ensures
        i < other.len(),
        one[i] == other[i],
    decreases i,
{
    assert forall|j: int| 0 <= j < i implies j < other.len() && one[j] == other[j] by {
        lemma_ascending_agree(one, other, j);
    }
    assert(one.contains(one[i]));
    let p = choose|p: int| 0 <= p < other.len() && other[p] == one[i];
    if p < i {
        assert(key_lt(one[p], one[i]));
        lemma_key_lt_asymmetric(one[p], one[i]);
    }
    assert(other.contains(other[i]));
    let q = choose|q: int| 0 <= q < one.len() && one[q] == other[i];
    if q < i {
        assert(key_lt(other[q], other[i]));
        lemma_key_lt_asymmetric(other[q], other[i]);
    }
    if p > i {
        assert(key_lt(other[i], other[p]));
        lemma_key_lt_asymmetric(other[i], other[p]);
        if q > i {
            assert(key_lt(one[i], one[q]));
        }
    }
}

/// Names compare where they first differ: by the characters there, and a name that ends
/// there comes first.
pub proof fn law_names_compare_where_they_differ(
    common: Seq<char>,
    x: char,
    a: Seq<char>,
    y: char,
    b: Seq<char>,
)
    ensures
        x != y ==> (name_lt(common + seq![x] + a, common + seq![y] + b) <==> x < y),
        name_lt(common, common + seq![y] + b),
        !name_lt(common + seq![x] + a, common),
        !name_lt(common, common),
    decreases common.len(),
{
    let (p, q) = (common + seq![x] + a, common + seq![y] + b);
    if common.len() > 0 {
        law_names_compare_where_they_differ(common.skip(1), x, a, y, b);
        assert(p.skip(1) == common.skip(1) + seq![x] + a);
        assert(q.skip(1) == common.skip(1) + seq![y] + b);
    }
}

/// Entries are ordered by class first, by number only within a class, and by name only
/// within a number.
pub proof fn law_keys_compare_in_turn(a: KeyView, b: KeyView)
    ensures
        a.class < b.class ==> key_lt(a, b) && !key_lt(b, a),
        a.class == b.class && a.number < b.number ==> key_lt(a, b) && !key_lt(b, a),
        a.class == b.class && a.number == b.number ==> (key_lt(a, b) <==> name_lt(
            a.name,
            b.name,
        )),
{
}

} // verus!
