//! What the code for a device is generated from: the order of its
//! interrupts and peripherals, the layout of its vector table, and the
//! linker script fragment that gives every interrupt a default handler.
use vstd::prelude::*;
use vstd::string::*;
use crate::ir::{Device, DeviceView, InterruptView, IR};

verus! {

/// `order` with position `i` put in behind every position whose key is not
/// greater than the key at `i`.
pub open spec fn placed(order: Seq<usize>, keys: Seq<u64>, i: usize) -> Seq<usize>
    decreases order.len(),
{
    if order.len() == 0 || keys[order.last() as int] <= keys[i as int] {
        order.push(i)
    } else {
        placed(order.drop_last(), keys, i).push(order.last())
    }
}

/// The positions of the first `n` keys in ascending order of key; positions
/// of equal keys keep their order.
pub open spec fn stable_order(keys: Seq<u64>, n: nat) -> Seq<usize>
    decreases n,
{
    if n == 0 {
        Seq::empty()
    } else {
        placed(stable_order(keys, (n - 1) as nat), keys, (n - 1) as usize)
    }
}

/// Where every position of `order` from `pos` on has a greater key than
/// position `i`, and the one before `pos` has not, `i` is placed at `pos`.
pub proof fn lemma_placed_at(order: Seq<usize>, keys: Seq<u64>, i: usize, pos: int)
    requires
        0 <= pos <= order.len(),
        forall|q: int| pos <= q < order.len() ==> keys[order[q] as int] > keys[i as int],
        pos > 0 ==> keys[order[pos - 1] as int] <= keys[i as int],
    ensures
        placed(order, keys, i) == order.insert(pos, i),
    decreases order.len(),
{
    if pos == order.len() {
        assert(order.push(i) =~= order.insert(pos, i));
    } else {
        lemma_placed_at(order.drop_last(), keys, i, pos);
        assert(order.drop_last().insert(pos, i).push(order.last()) =~= order.insert(pos, i));
    }
}

/// Placing a position keeps a list in ascending order of key, and adds that
/// position and no other.
pub proof fn lemma_placed(order: Seq<usize>, keys: Seq<u64>, i: usize)
    requires
        forall|p: int, q: int|
            0 <= p <= q < order.len() ==> keys[order[p] as int] <= keys[order[q] as int],
    ensures
        placed(order, keys, i).len() == order.len() + 1,
        forall|p: int, q: int|
            0 <= p <= q < placed(order, keys, i).len() ==> keys[placed(order, keys, i)[p] as int]
                <= keys[placed(order, keys, i)[q] as int],
        forall|x: usize| #[trigger] placed(order, keys, i).contains(x) <==> order.contains(x) || x == i,
        order.no_duplicates() && !order.contains(i) ==> placed(order, keys, i).no_duplicates(),
    decreases order.len(),
{
    crate::seqs::lemma_push_contains(order, i);
    if order.len() == 0 || keys[order.last() as int] <= keys[i as int] {
        if order.no_duplicates() && !order.contains(i) {
            crate::seqs::lemma_push_no_duplicates(order, i);
        }
    } else {
        let most = order.drop_last();
        let inner = placed(most, keys, i);
        lemma_placed(most, keys, i);
        crate::seqs::lemma_last_contains(order);
        crate::seqs::lemma_push_contains(inner, order.last());
        assert forall|p: int| 0 <= p < inner.len() implies keys[inner[p] as int]
            <= keys[order.last() as int] by {
            let x = inner[p];
            assert(inner.contains(x));
            assert(most.contains(x) || x == i);
            if x != i {
                let w = choose|w: int| 0 <= w < most.len() && most[w] == x;
                assert(order[w] == most[w]);
                assert(keys[order[w] as int] <= keys[order[order.len() - 1] as int]);
            }
        }
        let all = placed(order, keys, i);
        assert(all == inner.push(order.last()));
        assert forall|p: int, q: int| 0 <= p <= q < all.len() implies keys[all[p] as int]
            <= keys[all[q] as int] by {
            if q < inner.len() {
                assert(all[p] == inner[p] && all[q] == inner[q]);
            } else if p < inner.len() {
                assert(all[p] == inner[p]);
            }
        }
        assert forall|x: usize| #[trigger] all.contains(x) <==> order.contains(x) || x == i by {
            assert(inner.contains(x) <==> most.contains(x) || x == i);
        }
        if order.no_duplicates() && !order.contains(i) {
            assert(most.no_duplicates());
            assert(!most.contains(order.last())) by {
                if most.contains(order.last()) {
                    let w = choose|w: int| 0 <= w < most.len() && most[w] == order.last();
                    assert(order[w] == order[order.len() - 1]);
                }
            }
            assert(!most.contains(i)) by {
                if most.contains(i) {
                    let w = choose|w: int| 0 <= w < most.len() && most[w] == i;
                    assert(order[w] == i);
                }
            }
            assert(order.last() != i) by {
                assert(order[order.len() - 1] == order.last());
            }
            assert(inner.contains(order.last()) <==> most.contains(order.last()) || order.last()
                == i);
            crate::seqs::lemma_push_no_duplicates(inner, order.last());
        }
    }
}

/// `stable_order` lists every position below `n` once, in ascending order
/// of key.
pub proof fn lemma_stable_order(keys: Seq<u64>, n: nat)
    requires
        n <= usize::MAX,
    ensures
        stable_order(keys, n).len() == n,
        stable_order(keys, n).no_duplicates(),
        forall|x: usize| #[trigger] stable_order(keys, n).contains(x) <==> x < n,
        forall|p: int, q: int|
            0 <= p <= q < n ==> keys[stable_order(keys, n)[p] as int] <= keys[stable_order(
                keys,
                n,
            )[q] as int],
    decreases n,
{
    if n > 0 {
        let before = stable_order(keys, (n - 1) as nat);
        let last = (n - 1) as usize;
        lemma_stable_order(keys, (n - 1) as nat);
        lemma_placed(before, keys, last);
        assert(before.contains(last) <==> last < n - 1);
        assert forall|x: usize| #[trigger] stable_order(keys, n).contains(x) <==> x < n by {
            assert(placed(before, keys, last).contains(x) <==> before.contains(x) || x == last);
            assert(before.contains(x) <==> x < n - 1);
        }
    }
}

/// The positions stand in ascending order of key, and positions of equal
/// keys in ascending order.
pub open spec fn in_stable_order(order: Seq<usize>, keys: Seq<u64>) -> bool {
    forall|p: int, q: int|
        0 <= p < q < order.len() ==> keys[order[p] as int] < keys[order[q] as int] || (
        keys[order[p] as int] == keys[order[q] as int] && order[p] < order[q])
}

/// Placing a position that is greater than all that are listed keeps the
/// list in stable order.
pub proof fn lemma_placed_stable(order: Seq<usize>, keys: Seq<u64>, i: usize)
    requires
        in_stable_order(order, keys),
        forall|p: int| 0 <= p < order.len() ==> order[p] < i,
    ensures
        in_stable_order(placed(order, keys, i), keys),
    decreases order.len(),
{
    let all = placed(order, keys, i);
    if order.len() == 0 || keys[order.last() as int] <= keys[i as int] {
        assert forall|p: int, q: int| 0 <= p < q < all.len() implies keys[all[p] as int]
            < keys[all[q] as int] || (keys[all[p] as int] == keys[all[q] as int] && all[p]
            < all[q]) by {
            if q == order.len() {
                assert(all[p] == order[p]);
                if p < order.len() - 1 {
                    assert(keys[order[p] as int] <= keys[order[order.len() - 1] as int]);
                }
            } else {
                assert(all[p] == order[p] && all[q] == order[q]);
            }
        }
    } else {
        let most = order.drop_last();
        let inner = placed(most, keys, i);
        assert(in_stable_order(most, keys)) by {
            assert forall|p: int, q: int| 0 <= p < q < most.len() implies keys[most[p] as int]
                < keys[most[q] as int] || (keys[most[p] as int] == keys[most[q] as int]
                && most[p] < most[q]) by {
                assert(most[p] == order[p] && most[q] == order[q]);
            }
        }
        assert forall|p: int, q: int| 0 <= p <= q < most.len() implies keys[most[p] as int]
            <= keys[most[q] as int] by {
            assert(most[p] == order[p] && most[q] == order[q]);
        }
        lemma_placed_stable(most, keys, i);
        lemma_placed(most, keys, i);
        assert(all == inner.push(order.last()));
        assert forall|p: int, q: int| 0 <= p < q < all.len() implies keys[all[p] as int]
            < keys[all[q] as int] || (keys[all[p] as int] == keys[all[q] as int] && all[p]
            < all[q]) by {
            if q < inner.len() {
                assert(all[p] == inner[p] && all[q] == inner[q]);
            } else {
                let x = inner[p];
                assert(all[p] == x);
                assert(inner.contains(x));
                assert(most.contains(x) || x == i);
                if x != i {
                    let w = choose|w: int| 0 <= w < most.len() && most[w] == x;
                    assert(order[w] == x);
                    assert(order[order.len() - 1] == order.last());
                }
            }
        }
    }
}

/// `stable_order` is in stable order: where two keys are equal, the
/// earlier position comes first.
pub proof fn lemma_stable_order_is_stable(keys: Seq<u64>, n: nat)
    requires
        n <= usize::MAX,
    ensures
        in_stable_order(stable_order(keys, n), keys),
    decreases n,
{
    if n > 0 {
        let before = stable_order(keys, (n - 1) as nat);
        lemma_stable_order_is_stable(keys, (n - 1) as nat);
        lemma_stable_order(keys, (n - 1) as nat);
        assert forall|p: int| 0 <= p < before.len() implies before[p] < (n - 1) as usize by {
            assert(before.contains(before[p]));
        }
        lemma_placed_stable(before, keys, (n - 1) as usize);
    }
}

/// The positions of `keys` in ascending order of key; positions of equal
/// keys keep their order.
pub fn order_by_key(keys: &Vec<u64>) -> (order: Vec<usize>)
    ensures
        order@ == stable_order(keys@, keys.len() as nat),
        order.len() == keys.len(),
        forall|p: int| 0 <= p < order.len() ==> order@[p] < keys.len(),
{
    let mut order: Vec<usize> = Vec::new();
    let mut i: usize = 0;
    while i < keys.len()
        invariant
            i <= keys.len(),
            order.len() == i,
            forall|p: int| 0 <= p < order.len() ==> order@[p] < i,
            order@ == stable_order(keys@, i as nat),
        decreases keys.len() - i,
    {
        let key: u64 = keys[i];
        let mut pos: usize = order.len();
        while pos > 0 && keys[order[pos - 1]] > key
            invariant
                pos <= order.len(),
                order.len() == i,
                i < keys.len(),
                key == keys@[i as int],
                forall|p: int| 0 <= p < order.len() ==> order@[p] < i,
                forall|q: int| pos <= q < order.len() ==> keys@[order@[q] as int] > key,
            decreases pos,
        {
            pos -= 1;
        }
        proof {
            lemma_placed_at(order@, keys@, i, pos as int);
        }
        order.insert(pos, i);
        i += 1;
    }
    order
}

/// The values of the interrupts of a device, as keys.
pub open spec fn interrupt_keys(d: DeviceView) -> Seq<u64> {
    d.interrupts.map_values(|i: InterruptView| i.value as u64)
}

/// The base addresses of the peripherals of a device, as keys.
pub open spec fn peripheral_keys(d: DeviceView) -> Seq<u64> {
    d.peripherals.map_values(|p: crate::ir::PeripheralView| p.base_address)
}

/// The positions of the interrupts of a device in ascending order of value.
pub fn interrupt_order(d: &Device) -> (order: Vec<usize>)
    ensures
        order@ == stable_order(interrupt_keys(d@), d.interrupts.len() as nat),
        order.len() == d.interrupts.len(),
        forall|p: int| 0 <= p < order.len() ==> order@[p] < d.interrupts.len(),
{
    let mut keys: Vec<u64> = Vec::new();
    let mut i: usize = 0;
    while i < d.interrupts.len()
        invariant
            i <= d.interrupts.len(),
            keys.len() == i,
            forall|p: int| 0 <= p < i ==> keys@[p] == d.interrupts@[p].value as u64,
        decreases d.interrupts.len() - i,
    {
        keys.push(d.interrupts[i].value as u64);
        i += 1;
    }
    assert(keys@ =~= interrupt_keys(d@));
    order_by_key(&keys)
}

/// The positions of the peripherals of a device in ascending order of base
/// address.
pub fn peripheral_order(d: &Device) -> (order: Vec<usize>)
    ensures
        order@ == stable_order(peripheral_keys(d@), d.peripherals.len() as nat),
        order.len() == d.peripherals.len(),
        forall|p: int| 0 <= p < order.len() ==> order@[p] < d.peripherals.len(),
{
    let mut keys: Vec<u64> = Vec::new();
    let mut i: usize = 0;
    while i < d.peripherals.len()
        invariant
            i <= d.peripherals.len(),
            keys.len() == i,
            forall|p: int| 0 <= p < i ==> keys@[p] == d.peripherals@[p].base_address,
        decreases d.peripherals.len() - i,
    {
        keys.push(d.peripherals[i].base_address);
        i += 1;
    }
    assert(keys@ =~= peripheral_keys(d@));
    order_by_key(&keys)
}

/// The vector table after the first `k` interrupts in order of value: each
/// interrupt stands at the slot of its value, after as many reserved slots
/// as it takes to get there, or at the next slot where that one is taken. A
/// slot holds the position of its interrupt, or nothing where it is
/// reserved.
pub open spec fn vector_slots(d: DeviceView, k: nat) -> Seq<Option<usize>>
    decreases k,
{
    if k == 0 {
        Seq::empty()
    } else {
        let before = vector_slots(d, (k - 1) as nat);
        let i = stable_order(interrupt_keys(d), d.interrupts.len())[k - 1];
        let value = d.interrupts[i as int].value;
        let gap = if before.len() < value {
            value - before.len()
        } else {
            0
        };
        before + Seq::new(gap as nat, |j: int| None::<usize>) + seq![Some(i)]
    }
}

/// The vector table of a device: for each slot the position of the
/// interrupt that stands there, or nothing where the slot is reserved.
pub fn vector_table(d: &Device) -> (slots: Vec<Option<usize>>)
    ensures
        slots@ == vector_slots(d@, d.interrupts.len() as nat),
{
    let order = interrupt_order(d);
    let mut slots: Vec<Option<usize>> = Vec::new();
    let mut k: usize = 0;
    while k < order.len()
        invariant
            k <= order.len(),
            order.len() == d.interrupts.len(),
            order@ == stable_order(interrupt_keys(d@), d.interrupts.len() as nat),
            forall|p: int| 0 <= p < order.len() ==> order@[p] < d.interrupts.len(),
            slots@ == vector_slots(d@, k as nat),
        decreases order.len() - k,
    {
        let i: usize = order[k];
        let value: u32 = d.interrupts[i].value;
        let ghost before = slots@;
        let ghost gap: int = if before.len() < value {
            value - before.len()
        } else {
            0
        };
        while slots.len() < value as usize
            invariant
                before.len() <= slots.len(),
                slots.len() <= before.len() + gap,
                before.len() < value ==> gap == value - before.len(),
                before.len() >= value ==> gap == 0,
                slots@ == before + Seq::new((slots.len() - before.len()) as nat, |j: int| None::<usize>),
            decreases value - slots.len(),
        {
            slots.push(None);
            assert(slots@ =~= before + Seq::new(
                (slots.len() - before.len()) as nat,
                |j: int| None::<usize>,
            ));
        }
        assert(slots.len() - before.len() == gap);
        slots.push(Some(i));
        assert(d@.interrupts[i as int].value == value);
        k += 1;
    }
    slots
}

/// No two interrupts of the device have the same value.
pub open spec fn distinct_values(d: DeviceView) -> bool {
    forall|i: int, j: int|
        0 <= i < j < d.interrupts.len() ==> d.interrupts[i].value != d.interrupts[j].value
}

/// With distinct values, after the first `k` interrupts in order of value
/// the table ends with the last of them, each of them stands at the slot of
/// its value, and a slot at which none of them stands is reserved.
pub proof fn lemma_vector_slots_so_far(d: DeviceView, k: nat)
    requires
        distinct_values(d),
        k <= d.interrupts.len() <= usize::MAX,
    ensures
        ({
            let order = stable_order(interrupt_keys(d), d.interrupts.len());
            let t = vector_slots(d, k);
            &&& k == 0 ==> t.len() == 0
            &&& k > 0 ==> t.len() == d.interrupts[order[k - 1] as int].value + 1
            &&& forall|p: int|
                0 <= p < k ==> d.interrupts[order[p] as int].value < t.len()
                    && #[trigger] t[d.interrupts[order[p] as int].value as int] == Some(order[p])
            &&& forall|s: int|
                0 <= s < t.len() && (forall|p: int|
                    0 <= p < k ==> d.interrupts[#[trigger] order[p] as int].value != s)
                    ==> #[trigger] t[s] is None
        }),
    decreases k,
{
    let n = d.interrupts.len();
    let keys = interrupt_keys(d);
    let order = stable_order(keys, n);
    lemma_stable_order(keys, n);
    lemma_stable_order_is_stable(keys, n);
    assert forall|p: int| 0 <= p < n implies order[p] < n by {
        assert(order.contains(order[p]));
    }
    assert forall|p: int, q: int| 0 <= p < q < n implies d.interrupts[order[p] as int].value
        < d.interrupts[order[q] as int].value by {
        assert(order[p] != order[q]);
        let x = order[p] as int;
        let y = order[q] as int;
        assert(keys[x] == d.interrupts[x].value as u64);
        assert(keys[y] == d.interrupts[y].value as u64);
        if x < y {
            assert(d.interrupts[x].value != d.interrupts[y].value);
        } else {
            assert(d.interrupts[y].value != d.interrupts[x].value);
        }
    }
    if k > 0 {
        lemma_vector_slots_so_far(d, (k - 1) as nat);
        let before = vector_slots(d, (k - 1) as nat);
        let i = order[k - 1];
        let value = d.interrupts[i as int].value;
        let t = vector_slots(d, k);
        if k > 1 {
            assert(d.interrupts[order[k - 2] as int].value < value);
        }
        assert(before.len() <= value);
        let gap = (value - before.len()) as nat;
        assert(t == before + Seq::new(gap, |j: int| None::<usize>) + seq![Some(i)]);
        assert(t.len() == value + 1);
        assert forall|p: int| 0 <= p < k implies d.interrupts[order[p] as int].value < t.len()
            && #[trigger] t[d.interrupts[order[p] as int].value as int] == Some(order[p]) by {
            let v = d.interrupts[order[p] as int].value as int;
            if p < k - 1 {
                assert(d.interrupts[order[p] as int].value < value);
                assert(before[v] == Some(order[p]));
                assert(t[v] == before[v]);
            } else {
                assert(t[v] == Some(i));
            }
        }
        assert forall|s: int|
            0 <= s < t.len() && (forall|p: int|
                0 <= p < k ==> d.interrupts[#[trigger] order[p] as int].value != s)
            implies #[trigger] t[s] is None by {
            assert(d.interrupts[order[k - 1] as int].value != s);
            if s < before.len() {
                assert(t[s] == before[s]);
                assert forall|p: int| 0 <= p < k - 1 implies d.interrupts[#[trigger] order[p] as int].value
                    != s by {}
            } else {
                assert(s < value);
            }
        }
    }
}

/// The vector table of a device whose interrupts have distinct values: it
/// is one slot longer than the greatest value, every interrupt stands at
/// the slot of its value, and every other slot is reserved.
pub proof fn lemma_vector_table_of_distinct_values(d: DeviceView)
    requires
        distinct_values(d),
        d.interrupts.len() <= usize::MAX,
    ensures
        ({
            let t = vector_slots(d, d.interrupts.len());
            &&& d.interrupts.len() == 0 ==> t.len() == 0
            &&& forall|i: int|
                0 <= i < d.interrupts.len() ==> (#[trigger] d.interrupts[i]).value < t.len()
                    && t[d.interrupts[i].value as int] == Some(i as usize)
            &&& d.interrupts.len() > 0 ==> exists|i: int|
                0 <= i < d.interrupts.len() && t.len() == (#[trigger] d.interrupts[i]).value + 1
            &&& forall|s: int|
                0 <= s < t.len() && (forall|i: int|
                    0 <= i < d.interrupts.len() ==> (#[trigger] d.interrupts[i]).value != s)
                    ==> #[trigger] t[s] is None
        }),
{
    let n = d.interrupts.len();
    let order = stable_order(interrupt_keys(d), n);
    let t = vector_slots(d, n);
    lemma_vector_slots_so_far(d, n);
    lemma_stable_order(interrupt_keys(d), n);
    assert forall|p: int| 0 <= p < n implies order[p] < n by {
        assert(order.contains(order[p]));
    }
    assert forall|i: int| 0 <= i < n implies (#[trigger] d.interrupts[i]).value < t.len()
        && t[d.interrupts[i].value as int] == Some(i as usize) by {
        assert(order.contains(i as usize));
        let p = choose|p: int| 0 <= p < order.len() && order[p] == i as usize;
        assert(t[d.interrupts[order[p] as int].value as int] == Some(order[p]));
    }
    if n > 0 {
        assert(t.len() == d.interrupts[order[n - 1] as int].value + 1);
    }
    assert forall|s: int|
        0 <= s < t.len() && (forall|i: int|
            0 <= i < d.interrupts.len() ==> (#[trigger] d.interrupts[i]).value != s)
        implies #[trigger] t[s] is None by {
        assert forall|p: int| 0 <= p < n implies d.interrupts[#[trigger] order[p] as int].value
            != s by {
            assert(d.interrupts[order[p] as int].value != s);
        }
    }
}

/// The line that provides the default handler for one interrupt.
pub open spec fn provide_line(i: InterruptView) -> Seq<char> {
    "PROVIDE("@ + i.name + " = DefaultHandler);\n"@
}

/// The lines of the interrupts at the first `k` positions of `order`.
pub open spec fn provide_lines(d: DeviceView, order: Seq<usize>, k: nat) -> Seq<char>
    decreases k,
{
    if k == 0 {
        Seq::empty()
    } else {
        provide_lines(d, order, (k - 1) as nat) + provide_line(d.interrupts[order[k - 1] as int])
    }
}

/// The text for a device: one line for each interrupt, in ascending order
/// of value.
pub open spec fn device_x_text(d: DeviceView) -> Seq<char> {
    provide_lines(
        d,
        stable_order(interrupt_keys(d), d.interrupts.len()),
        d.interrupts.len(),
    )
}

/// One `PROVIDE` line for each interrupt of the device, in ascending order
/// of value.
pub fn render_device_x(_ir: &IR, d: &Device) -> (device_x: String)
    ensures
        device_x@ == device_x_text(d@),
{
    let order = interrupt_order(d);
    let mut device_x = String::new();
    let mut k: usize = 0;
    while k < order.len()
        invariant
            k <= order.len(),
            order.len() == d.interrupts.len(),
            forall|p: int| 0 <= p < order.len() ==> order@[p] < d.interrupts.len(),
            device_x@ == provide_lines(d@, order@, k as nat),
        decreases order.len() - k,
    {
        let ghost before = device_x@;
        device_x.append("PROVIDE(");
        device_x.append(d.interrupts[order[k]].name.as_str());
        device_x.append(" = DefaultHandler);\n");
        assert(device_x@ =~= before + provide_line(d@.interrupts[order@[k as int] as int]));
        k += 1;
    }
    device_x
}

} // verus!
