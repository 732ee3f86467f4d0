//! The order in which surfaces are drawn: back to front by depth.
use vstd::prelude::*;

verus! {

/// The key by which `f32::total_cmp` orders floats, from a float's bits:
/// the bits as a signed integer, with all but the sign bit flipped when the
/// sign bit is set. Comparing keys as integers is comparing the floats by
/// `total_cmp`.
pub open spec fn total_order_key(bits: u32) -> i32 {
    if bits >= 0x8000_0000 {
        ((bits ^ 0x7fff_ffffu32) as i32)
    } else {
        bits as i32
    }
}

/// The `total_cmp` key of the float whose bits are `bits`.
pub fn depth_key(bits: u32) -> (key: i32)
    ensures
        key == total_order_key(bits),
{
    if bits >= 0x8000_0000 {
        (bits ^ 0x7fff_ffff) as i32
    } else {
        bits as i32
    }
}

/// Surface `a` is drawn before surface `b`: it has the lower key, or the
/// same key and comes first.
pub open spec fn drawn_before(keys: Seq<i32>, a: int, b: int) -> bool {
    keys[a] < keys[b] || (keys[a] == keys[b] && a < b)
}

/// `order` lists each index of `keys` exactly once, in drawing order.
pub open spec fn is_draw_order(keys: Seq<i32>, order: Seq<usize>) -> bool {
    &&& order.len() == keys.len()
    &&& forall|i: int| 0 <= i < order.len() ==> #[trigger] order[i] < keys.len()
    &&& forall|i: int, j: int| 0 <= i < j < order.len()
        ==> drawn_before(keys, #[trigger] order[i] as int, #[trigger] order[j] as int)
    &&& forall|s: usize| s < keys.len() ==> #[trigger] order.contains(s)
}

/// Indices of the surfaces whose depth keys are `keys`, sorted by key,
/// surfaces of equal key in the order they were added (a stable sort).
pub fn draw_order(keys: &[i32]) -> (order: Vec<usize>)
    ensures
        is_draw_order(keys@, order@),
{
    let mut order: Vec<usize> = Vec::new();
    let mut n: usize = 0;
    while n < keys.len()
        invariant
            0 <= n <= keys@.len(),
            order@.len() == n,
            forall|i: int| 0 <= i < order@.len() ==> #[trigger] order@[i] < n,
            forall|i: int, j: int| 0 <= i < j < order@.len()
                ==> drawn_before(keys@, #[trigger] order@[i] as int, #[trigger] order@[j] as int),
            forall|s: usize| s < n ==> #[trigger] order@.contains(s),
        decreases keys@.len() - n,
    {
        // Surface n goes after every surface of lower or equal key.
        let mut pos: usize = order.len();
        while pos > 0 && keys[order[pos - 1]] > keys[n]
            invariant
                0 <= pos <= order@.len(),
                order@.len() == n,
                n < keys@.len(),
                forall|i: int| 0 <= i < order@.len() ==> #[trigger] order@[i] < n,
                forall|i: int| pos <= i < order@.len() ==> keys@[#[trigger] order@[i] as int] > keys@[n as int],
            decreases pos,
        {
            pos = pos - 1;
        }
        proof {
            if pos > 0 {
                assert(keys@[order@[pos - 1] as int] <= keys@[n as int]);
            }
        }
        let ghost before = order@;
        order.insert(pos, n);
        proof {
            assert(order@ == before.insert(pos as int, n));
            assert forall|i: int, j: int| 0 <= i < j < order@.len()
                implies drawn_before(keys@, #[trigger] order@[i] as int, #[trigger] order@[j] as int) by {
                if j < pos {
                    assert(order@[i] == before[i] && order@[j] == before[j]);
                } else if j == pos {
                    assert(order@[i] == before[i]);
                    if i < pos - 1 {
                        assert(drawn_before(keys@, before[i] as int, before[pos - 1] as int));
                    }
                } else if i < pos {
                    assert(order@[j] == before[j - 1]);
                    assert(order@[i] == before[i]);
                } else if i == pos {
                    assert(order@[j] == before[j - 1]);
                } else {
                    assert(order@[i] == before[i - 1] && order@[j] == before[j - 1]);
                }
            }
            assert forall|s: usize| s < n + 1 implies #[trigger] order@.contains(s) by {
                if s == n {
                    assert(order@[pos as int] == s);
                } else {
                    assert(before.contains(s));
                    let i0 = choose|i: int| 0 <= i < before.len() && before[i] == s;
                    if i0 < pos {
                        assert(order@[i0] == s);
                    } else {
                        assert(order@[i0 + 1] == s);
                    }
                }
            }
        }
        n = n + 1;
    }
    order
}

proof fn lemma_draw_order_prefix(keys: Seq<i32>, o1: Seq<usize>, o2: Seq<usize>, i: int)
    requires
        is_draw_order(keys, o1),
        is_draw_order(keys, o2),
        0 <= i < o1.len(),
    ensures
        forall|k: int| 0 <= k <= i ==> #[trigger] o1[k] == o2[k],
    decreases i,
{
    if i > 0 {
        lemma_draw_order_prefix(keys, o1, o2, i - 1);
    }
    let a = o1[i];
    let b = o2[i];
    if a != b {
        if drawn_before(keys, a as int, b as int) {
            assert(o2.contains(a));
            let p = choose|p: int| 0 <= p < o2.len() && o2[p] == a;
            if p < i {
                assert(o1[p] == o2[p]);
                assert(drawn_before(keys, o1[p] as int, o1[i] as int));
            } else {
                assert(drawn_before(keys, o2[i] as int, o2[p] as int));
            }
        } else {
            assert(o1.contains(b));
            let p = choose|p: int| 0 <= p < o1.len() && o1[p] == b;
            if p < i {
                assert(o1[p] == o2[p]);
                assert(drawn_before(keys, o2[p] as int, o2[i] as int));
            } else {
                assert(drawn_before(keys, o1[i] as int, o1[p] as int));
            }
        }
    }
}

/// The drawing order is unique: the keys determine it completely.
pub proof fn lemma_draw_order_unique(keys: Seq<i32>, o1: Seq<usize>, o2: Seq<usize>)
    requires
        is_draw_order(keys, o1),
        is_draw_order(keys, o2),
    ensures
        o1 == o2,
{
    if o1.len() > 0 {
        lemma_draw_order_prefix(keys, o1, o2, o1.len() - 1);
    }
    assert(o1 =~= o2);
}

/// The IEEE 754 total order on `f32` bit patterns, read off the sign bit and
/// the magnitude (the other 31 bits): every negative pattern comes before
/// every positive one (so -0 before +0); positives rise with their
/// magnitude; negatives fall with theirs.
pub open spec fn total_order_lt(a: u32, b: u32) -> bool {
    let (a_negative, b_negative) = (a >= 0x8000_0000, b >= 0x8000_0000);
    let (a_magnitude, b_magnitude) = (a % 0x8000_0000, b % 0x8000_0000);
    if a_negative != b_negative {
        a_negative
    } else if a_negative {
        a_magnitude > b_magnitude
    } else {
        a_magnitude < b_magnitude
    }
}

proof fn lemma_key_value(bits: u32)
    ensures
        bits >= 0x8000_0000 ==> total_order_key(bits) as int == -1 - (bits % 0x8000_0000) as int,
        bits < 0x8000_0000 ==> total_order_key(bits) as int == bits as int,
{
    assert(bits >= 0x8000_0000u32 ==> ((bits ^ 0x7fff_ffffu32) as i32) == -1i32 - ((bits % 0x8000_0000u32) as i32)) by (bit_vector);
    assert(bits < 0x8000_0000u32 ==> (bits as i32) as int == bits as int) by (bit_vector);
}

/// Depth keys order floats as `f32::total_cmp` does: one key is below
/// another exactly when its float comes first in the IEEE total order. So a
/// deeper (more negative) surface gets the smaller key and is drawn first.
pub proof fn lemma_depth_key_orders(a: u32, b: u32)
    ensures
        (total_order_key(a) < total_order_key(b)) == total_order_lt(a, b),
        (total_order_key(a) == total_order_key(b)) == (a == b),
{
    lemma_key_value(a);
    lemma_key_value(b);
    assert(a == (a / 0x8000_0000) * 0x8000_0000 + a % 0x8000_0000);
    assert(b == (b / 0x8000_0000) * 0x8000_0000 + b % 0x8000_0000);
}

} // verus!
