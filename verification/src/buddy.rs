use vstd::prelude::*;

use crate::memory::FrameType;

verus! {

/// The largest block order: a block of order `o` spans `2^o` frames.
pub const MAX_ORDER: usize = 10;

/// The number of frames in a block of the largest order.
pub const MAX_BLOCK_FRAMES: usize = 1024;

/// The most frames the allocator describes: 52-bit physical addresses of 4096-byte frames.
pub const MAX_FRAMES: u64 = 0x100_0000_0000;

/// The number of frames in a block of order `o`.
pub open spec fn blen(o: int) -> int {
    (1u64 << (o as u64)) as int
}

/// Whether frame `x` starts a block of order `o`.
pub open spec fn aligned(x: int, o: int) -> bool {
    (x as u64) & (((1u64 << (o as u64)) - 1) as u64) == 0
}

/// The frame whose block of order `o` pairs with the block of order `o` at `x`.
pub open spec fn buddy_of(x: int, o: int) -> int {
    if aligned(x, o + 1) { x + blen(o) } else { x - blen(o) }
}

/// The sizes of the block orders.
pub proof fn lemma_blen(o: int)
    requires
        0 <= o <= MAX_ORDER,
    ensures
        1 <= blen(o) <= MAX_BLOCK_FRAMES,
        o == 0 ==> blen(o) == 1,
        o == MAX_ORDER ==> blen(o) == MAX_BLOCK_FRAMES,
        o < MAX_ORDER ==> blen(o + 1) == 2 * blen(o),
        (MAX_BLOCK_FRAMES as int) % blen(o) == 0,
{
    let u = o as u64;
    let u1 = (o + 1) as u64;
    assert(1 <= (1u64 << u) <= 1024 && (u == 0 ==> (1u64 << u) == 1) && (u == 10 ==> (1u64 << u) == 1024)
        && (u < 10 ==> (1u64 << u1) == 2 * (1u64 << u)) && 1024u64 % (1u64 << u) == 0) by (bit_vector)
        requires
            u <= 10,
            u1 == u + 1,
    ;
}

/// Two aligned blocks either lie apart or one holds the other: a block that starts inside
/// another is of a lower order and ends inside it too.
pub proof fn lemma_nested(h: int, a: int, b: int, c: int)
    requires
        0 <= a <= MAX_ORDER,
        0 <= c <= MAX_ORDER,
        0 <= h < MAX_FRAMES,
        0 <= b < MAX_FRAMES,
        aligned(h, a),
        aligned(b, c),
        h < b < h + blen(a),
    ensures
        c < a,
        b + blen(c) <= h + blen(a),
{
    let (hu, au, bu, cu) = (h as u64, a as u64, b as u64, c as u64);
    assert(cu < au && bu + (1u64 << cu) <= hu + (1u64 << au)) by (bit_vector)
        requires
            au <= 10,
            cu <= 10,
            hu < 0x100_0000_0000,
            bu < 0x100_0000_0000,
            hu & (((1u64 << au) - 1) as u64) == 0,
            bu & (((1u64 << cu) - 1) as u64) == 0,
            hu < bu,
            bu < hu + (1u64 << au),
    ;
}

/// A block of a higher order that holds a block of order `o` also holds the pair that block
/// forms with its buddy.
pub proof fn lemma_holds_pair(h: int, a: int, p: int, o: int, b: int)
    requires
        0 <= o < a <= MAX_ORDER,
        0 <= h < MAX_FRAMES,
        0 <= p < MAX_FRAMES,
        aligned(h, a),
        aligned(p, o + 1),
        p <= b < p + blen(o + 1),
        h <= b < h + blen(a),
        b < MAX_FRAMES,
    ensures
        h <= p,
        p + blen(o + 1) <= h + blen(a),
{
    let (hu, au, pu, ou, bu) = (h as u64, a as u64, p as u64, o as u64, b as u64);
    let ou1 = (o + 1) as u64;
    assert(hu <= pu && pu + (1u64 << ou1) <= hu + (1u64 << au)) by (bit_vector)
        requires
            ou1 == ou + 1,
            ou < au,
            au <= 10,
            hu < 0x100_0000_0000,
            pu < 0x100_0000_0000,
            hu & (((1u64 << au) - 1) as u64) == 0,
            pu & (((1u64 << ou1) - 1) as u64) == 0,
            pu <= bu,
            bu < pu + (1u64 << ou1),
            hu <= bu,
            bu < hu + (1u64 << au),
    ;
}

/// A block that starts below the end of the frames ends there at the latest, as the number of
/// frames is a multiple of the largest block.
pub proof fn lemma_block_fits(x: int, o: int, n: int)
    requires
        0 <= o <= MAX_ORDER,
        0 <= x < n <= MAX_FRAMES,
        n % (MAX_BLOCK_FRAMES as int) == 0,
        aligned(x, o),
    ensures
        x + blen(o) <= n,
{
    let (xu, ou, nu) = (x as u64, o as u64, n as u64);
    assert(xu + (1u64 << ou) <= nu) by (bit_vector)
        requires
            ou <= 10,
            xu < nu,
            nu <= 0x100_0000_0000,
            nu % 1024 == 0,
            xu & (((1u64 << ou) - 1) as u64) == 0,
    ;
}

/// The exclusive-or, and, and or with the block size of order `o` give the buddy, the lower and
/// the higher frame of the pair that a block of that order forms with its buddy.
pub proof fn lemma_pair(x: usize, s: usize, o: int)
    requires
        0 <= o < MAX_ORDER,
        x < MAX_FRAMES,
        s == blen(o),
        aligned(x as int, o),
    ensures
        (x ^ s) == buddy_of(x as int, o),
        (x & !s) == (if aligned(x as int, o + 1) { x as int } else { buddy_of(x as int, o) }),
        (x | s) == (if aligned(x as int, o + 1) { buddy_of(x as int, o) } else { x as int }),
        aligned((x & !s) as int, o + 1),
        (x | s) == (x & !s) + s,
        aligned(buddy_of(x as int, o), o),
        0 <= buddy_of(x as int, o) < MAX_FRAMES,
{
    let ou = o as u64;
    let ou1 = (o + 1) as u64;
    let (xu, su) = (x as u64, s as u64);
    assert(((x ^ s) as u64) == ((x as u64) ^ (s as u64))) by (bit_vector);
    assert(((x & !s) as u64) == ((x as u64) & !(s as u64))) by (bit_vector);
    assert(((x | s) as u64) == ((x as u64) | (s as u64))) by (bit_vector);
    assert(su == (1u64 << ou));
    assert((xu ^ su) as int == (if xu & (((1u64 << ou1) - 1) as u64) == 0 { xu + su } else { xu - su })) by (bit_vector)
        requires
            ou1 == ou + 1,
            ou < 10,
            su == (1u64 << ou),
            xu < 0x100_0000_0000,
            xu & ((su - 1) as u64) == 0,
    ;
    assert((xu & !su) as int == (if xu & (((1u64 << ou1) - 1) as u64) == 0 { xu as int } else { xu - su })) by (bit_vector)
        requires
            ou1 == ou + 1,
            ou < 10,
            su == (1u64 << ou),
            xu < 0x100_0000_0000,
            xu & ((su - 1) as u64) == 0,
    ;
    assert((xu | su) as int == (if xu & (((1u64 << ou1) - 1) as u64) == 0 { xu + su } else { xu as int })) by (bit_vector)
        requires
            ou1 == ou + 1,
            ou < 10,
            su == (1u64 << ou),
            xu < 0x100_0000_0000,
            xu & ((su - 1) as u64) == 0,
    ;
    assert((xu & !su) & (((1u64 << ou1) - 1) as u64) == 0) by (bit_vector)
        requires
            ou1 == ou + 1,
            ou < 10,
            su == (1u64 << ou),
            xu & ((su - 1) as u64) == 0,
    ;
    assert((xu ^ su) & ((su - 1) as u64) == 0 && (xu ^ su) < 0x100_0000_0000) by (bit_vector)
        requires
            ou < 10,
            su == (1u64 << ou),
            xu < 0x100_0000_0000,
            xu & ((su - 1) as u64) == 0,
    ;
    assert(blen(o + 1) == (1u64 << ou1));
}


/// A frame aligned to an order is aligned to every lower order, and the upper half of an
/// aligned block is aligned to the order below.
pub proof fn lemma_aligned_lower(x: int, a: int, b: int)
    requires
        0 <= b <= a <= MAX_ORDER,
        0 <= x < MAX_FRAMES,
        aligned(x, a),
    ensures
        aligned(x, b),
        b < a ==> aligned(x + blen(b), b),
{
    let (xu, au, bu) = (x as u64, a as u64, b as u64);
    assert(xu & (((1u64 << bu) - 1) as u64) == 0) by (bit_vector)
        requires
            bu <= au,
            au <= 10,
            xu & (((1u64 << au) - 1) as u64) == 0,
    ;
    if b < a {
        assert(((xu + (1u64 << bu)) as u64) & (((1u64 << bu) - 1) as u64) == 0 && xu + (1u64 << bu) < 0x200_0000_0000) by (bit_vector)
            requires
                bu < au,
                au <= 10,
                xu < 0x100_0000_0000,
                xu & (((1u64 << au) - 1) as u64) == 0,
        ;
    }
}

/// Dropping the front of a list without duplicates removes exactly its front.
pub proof fn lemma_drop_front(s: Seq<usize>)
    requires
        s.len() > 0,
        s.no_duplicates(),
    ensures
        s.drop_first().no_duplicates(),
        forall|x: usize| #[trigger] s.drop_first().contains(x) <==> (s.contains(x) && x != s[0]),
{
    assert forall|x: usize| #[trigger] s.drop_first().contains(x) <==> (s.contains(x) && x != s[0]) by {
        if s.drop_first().contains(x) {
            let k = choose|k: int| 0 <= k < s.drop_first().len() && s.drop_first()[k] == x;
            assert(s[k + 1] == x);
        }
        if s.contains(x) && x != s[0] {
            let k = choose|k: int| 0 <= k < s.len() && s[k] == x;
            assert(s.drop_first()[k - 1] == x);
        }
    }
}

/// Removing the item at position `k` from a list without duplicates removes exactly that item.
pub proof fn lemma_remove_at(s: Seq<usize>, k: int)
    requires
        0 <= k < s.len(),
        s.no_duplicates(),
    ensures
        s.remove(k).no_duplicates(),
        forall|x: usize| #[trigger] s.remove(k).contains(x) <==> (s.contains(x) && x != s[k]),
{
    assert forall|x: usize| #[trigger] s.remove(k).contains(x) <==> (s.contains(x) && x != s[k]) by {
        if s.remove(k).contains(x) {
            let i = choose|i: int| 0 <= i < s.remove(k).len() && s.remove(k)[i] == x;
            if i < k {
                assert(s[i] == x);
            } else {
                assert(s[i + 1] == x);
            }
        }
        if s.contains(x) && x != s[k] {
            let i = choose|i: int| 0 <= i < s.len() && s[i] == x;
            if i < k {
                assert(s.remove(k)[i] == x);
            } else {
                assert(i != k);
                assert(s.remove(k)[i - 1] == x);
            }
        }
    }
    assert forall|i: int, m: int| 0 <= i < m < s.remove(k).len() implies s.remove(k)[i] != s.remove(k)[m] by {
        let i1 = if i < k { i } else { i + 1 };
        let m1 = if m < k { m } else { m + 1 };
        assert(s.remove(k)[i] == s[i1]);
        assert(s.remove(k)[m] == s[m1]);
    }
}

/// Appending a new item to a list without duplicates keeps it without duplicates.
pub proof fn lemma_push_new(s: Seq<usize>, y: usize)
    requires
        s.no_duplicates(),
        !s.contains(y),
    ensures
        s.push(y).no_duplicates(),
        forall|x: usize| #[trigger] s.push(y).contains(x) <==> (s.contains(x) || x == y),
{
    assert forall|x: usize| #[trigger] s.push(y).contains(x) <==> (s.contains(x) || x == y) by {
        if s.push(y).contains(x) {
            let k = choose|k: int| 0 <= k < s.push(y).len() && s.push(y)[k] == x;
            if k < s.len() {
                assert(s[k] == x);
            }
        }
        if s.contains(x) {
            let k = choose|k: int| 0 <= k < s.len() && s[k] == x;
            assert(s.push(y)[k] == x);
        }
        assert(s.push(y)[s.len() as int] == y);
    }
}

/// The block size of order `k` computed with a shift.
pub proof fn lemma_shl_blen(k: usize)
    requires
        k <= MAX_ORDER,
    ensures
        (1usize << k) as int == blen(k as int),
{
    assert((1usize << k) as u64 == (1u64 << (k as u64))) by (bit_vector)
        requires
            k <= 10,
    ;
}

/// Splitting the upper half off a detached free block of order `cur`, and listing that half
/// as a free block of the order below, keeps the blocks and lists well formed and the free
/// frames as they were.
pub proof fn lemma_split_step(f: Seq<FrameInfo>, w: Seq<int>, l: Seq<Seq<usize>>, fi: int, cur: int)
    requires
        blocks_ok(f, w),
        lists_ok(f, l, fi),
        f.len() <= MAX_FRAMES,
        f.len() <= usize::MAX,
        0 <= fi < f.len(),
        1 <= cur <= MAX_ORDER,
        f[fi] == (FrameInfo { ty: FrameType::Buddy, order: cur as u8 }),
    ensures
        ({
            let half = blen(cur - 1);
            let other = fi + half;
            let f2 = f.update(other, FrameInfo { ty: FrameType::Buddy, order: (cur - 1) as u8 }).update(
                fi,
                FrameInfo { ty: FrameType::Buddy, order: (cur - 1) as u8 },
            );
            let w2 = Seq::new(w.len(), |j: int| if other <= j < other + half { other } else { w[j] });
            let l2 = l.update(cur - 1, l[cur - 1].push(other as usize));
            &&& other + half <= f.len()
            &&& half == blen(cur) / 2
            &&& blocks_ok(f2, w2)
            &&& lists_ok(f2, l2, fi)
            &&& free_frames(f2, w2) == free_frames(f, w)
        }),
{
    let half = blen(cur - 1);
    let other = fi + half;
    let b1 = FrameInfo { ty: FrameType::Buddy, order: (cur - 1) as u8 };
    let f2 = f.update(other, b1).update(fi, b1);
    let w2 = Seq::new(w.len(), |j: int| if other <= j < other + half { other } else { w[j] });
    let l2 = l.update(cur - 1, l[cur - 1].push(other as usize));
    lemma_blen(cur - 1);
    lemma_blen(cur);
    assert(head_ok(f, w, fi));
    lemma_aligned_lower(fi, cur, cur - 1);
    assert(w[other] == fi);
    assert(owner_ok(f, w, other));
    assert(f[other].ty == FrameType::BuddyTail);
    assert forall|j: int| 0 <= j < f.len() implies #[trigger] owner_ok(f2, w2, j) by {
        assert(owner_ok(f, w, j));
        if other <= j < other + half {
            assert(w[j] == fi);
        } else if fi <= j < other {
            assert(w[j] == fi);
        } else {
            let h = w[j];
            assert(h != fi);
            if h == other {
                assert(false);
            }
        }
    }
    assert forall|h: int| 0 <= h < f.len() && is_head_type(f2[h].ty) implies #[trigger] head_ok(f2, w2, h) by {
        if h == fi {
        } else if h == other {
        } else {
            assert(head_ok(f, w, h));
            assert forall|j: int| h <= j < h + blen(f2[h].order as int) implies #[trigger] w2[j] == h by {
                assert(w[j] == h);
                if other <= j < other + half {
                    assert(w[j] == fi);
                }
            }
        }
    }
    assert((other as usize) as int == other);
    assert(!l[cur - 1].contains(other as usize)) by {
        if l[cur - 1].contains(other as usize) {
            assert(listed(f, fi, cur - 1, other as usize));
        }
    }
    lemma_push_new(l[cur - 1], other as usize);
    assert forall|o: int, x: usize| 0 <= o <= MAX_ORDER implies (#[trigger] l2[o].contains(x) <==> listed(f2, fi, o, x)) by {
        assert(l[o].contains(x) <==> listed(f, fi, o, x));
    }
    assert forall|o: int| 0 <= o <= MAX_ORDER implies #[trigger] l2[o].no_duplicates() by {
        assert(l[o].no_duplicates());
    }
    assert forall|j: int| #[trigger] free_frames(f2, w2).contains(j) == free_frames(f, w).contains(j) by {
        if 0 <= j < f.len() {
            assert(owner_ok(f, w, j));
            if other <= j < other + half {
                assert(w[j] == fi);
            } else if fi <= j < other {
                assert(w[j] == fi);
            } else if w[j] == other {
                assert(false);
            }
        }
    }
    assert(free_frames(f2, w2) =~= free_frames(f, w));
}

/// The frames that lie in free blocks other than the block that starts at frame `d`.
pub open spec fn free_outside(f: Seq<FrameInfo>, w: Seq<int>, d: int) -> Set<int> {
    Set::new(|j: int| 0 <= j < f.len() && f[w[j]].ty == FrameType::Buddy && w[j] != d)
}

/// The buddy of a block never lies inside a larger block: it starts a block of its own or is
/// reserved.
pub proof fn lemma_buddy_not_tail(f: Seq<FrameInfo>, w: Seq<int>, fi: int, o: int)
    requires
        blocks_ok(f, w),
        f.len() <= MAX_FRAMES,
        f.len() <= usize::MAX,
        f.len() as int % (MAX_BLOCK_FRAMES as int) == 0,
        0 <= fi < f.len(),
        is_head_type(f[fi].ty),
        f[fi].order == o,
        0 <= o < MAX_ORDER,
    ensures
        0 <= buddy_of(fi, o) < f.len(),
        f[buddy_of(fi, o)].ty != FrameType::BuddyTail,
{
    assert(head_ok(f, w, fi));
    assert(owner_ok(f, w, fi));
    lemma_blen(o);
    lemma_blen(o + 1);
    let s = blen(o) as usize;
    assert((fi as usize) as int == fi);
    lemma_pair(fi as usize, s, o);
    let b = buddy_of(fi, o);
    let lower = (fi as usize & !s) as int;
    lemma_block_fits(lower, o + 1, f.len() as int);
    if f[b].ty == FrameType::BuddyTail {
        assert(owner_ok(f, w, b));
        let h = w[b];
        assert(h != fi);
        let oh = f[h].order as int;
        assert(head_ok(f, w, h));
        lemma_nested(h, oh, b, o);
        lemma_holds_pair(h, oh, lower, o, b);
        assert(w[fi] == h);
    }
}

/// Merging a detached block of order `o` with its free buddy of the same order, which leaves its
/// free list, gives a detached block of order `o + 1` at the lower of the two and keeps the
/// blocks and lists well formed; the free frames outside the detached block, together with it,
/// stay as they were.
pub proof fn lemma_merge_step(f: Seq<FrameInfo>, w: Seq<int>, l: Seq<Seq<usize>>, fi: int, o: int, k: int)
    requires
        blocks_ok(f, w),
        lists_ok(f, l, fi),
        f.len() <= MAX_FRAMES,
        f.len() <= usize::MAX,
        f.len() as int % (MAX_BLOCK_FRAMES as int) == 0,
        0 <= fi < f.len(),
        is_head_type(f[fi].ty),
        f[fi].order == o,
        0 <= o < MAX_ORDER,
        0 <= buddy_of(fi, o) < f.len(),
        f[buddy_of(fi, o)] == (FrameInfo { ty: FrameType::Buddy, order: o as u8 }),
        0 <= k < l[o].len(),
        l[o][k] == buddy_of(fi, o),
    ensures
        ({
            let b = buddy_of(fi, o);
            let lower = if fi < b { fi } else { b };
            let higher = if fi < b { b } else { fi };
            let f2 = f.update(higher, FrameInfo { ty: FrameType::BuddyTail, order: f[higher].order }).update(
                lower,
                FrameInfo { ty: f[lower].ty, order: (o + 1) as u8 },
            );
            let w2 = Seq::new(w.len(), |j: int| if lower <= j < lower + blen(o + 1) { lower } else { w[j] });
            let l2 = l.update(o, l[o].remove(k));
            &&& blocks_ok(f2, w2)
            &&& lists_ok(f2, l2, lower)
            &&& is_head_type(f2[lower].ty)
            &&& free_outside(f2, w2, lower).union(block_frames(lower, o + 1)) == free_outside(f, w, fi).union(
                block_frames(fi, o),
            )
        }),
{
    let b = buddy_of(fi, o);
    let lower = if fi < b { fi } else { b };
    let higher = if fi < b { b } else { fi };
    let f2 = f.update(higher, FrameInfo { ty: FrameType::BuddyTail, order: f[higher].order }).update(
        lower,
        FrameInfo { ty: f[lower].ty, order: (o + 1) as u8 },
    );
    let w2 = Seq::new(w.len(), |j: int| if lower <= j < lower + blen(o + 1) { lower } else { w[j] });
    let l2 = l.update(o, l[o].remove(k));
    lemma_blen(o);
    lemma_blen(o + 1);
    let s = blen(o) as usize;
    assert((fi as usize) as int == fi);
    assert(head_ok(f, w, fi));
    lemma_pair(fi as usize, s, o);
    assert(lower == (fi as usize & !s) as int);
    assert(higher == lower + blen(o));
    lemma_block_fits(lower, o + 1, f.len() as int);
    assert(head_ok(f, w, fi));
    assert(head_ok(f, w, b));
    assert(owner_ok(f, w, fi));
    assert(owner_ok(f, w, b));
    assert forall|j: int| 0 <= j < f.len() implies #[trigger] owner_ok(f2, w2, j) by {
        assert(owner_ok(f, w, j));
        if lower <= j < lower + blen(o + 1) {
            if fi <= j < fi + blen(o) {
                assert(w[j] == fi);
            } else {
                assert(w[j] == b);
            }
        } else {
            let h = w[j];
            if h == fi || h == b {
                assert(false);
            }
        }
    }
    assert forall|h: int| 0 <= h < f.len() && is_head_type(f2[h].ty) implies #[trigger] head_ok(f2, w2, h) by {
        if h == lower {
        } else {
            assert(h != higher);
            assert(head_ok(f, w, h));
            assert forall|j: int| h <= j < h + blen(f2[h].order as int) implies #[trigger] w2[j] == h by {
                assert(w[j] == h);
                if lower <= j < lower + blen(o + 1) {
                    if fi <= j < fi + blen(o) {
                        assert(w[j] == fi);
                    } else {
                        assert(w[j] == b);
                    }
                }
            }
        }
    }
    assert(l[o].no_duplicates());
    assert forall|x: usize| #[trigger] l[o].remove(k).contains(x) <==> (l[o].contains(x) && x as int != b) by {
        if l[o].remove(k).contains(x) {
            let i = choose|i: int| 0 <= i < l[o].remove(k).len() && l[o].remove(k)[i] == x;
            if i < k {
                assert(l[o][i] == x);
            } else {
                assert(l[o][i + 1] == x);
            }
        }
        if l[o].contains(x) && x as int != b {
            let i = choose|i: int| 0 <= i < l[o].len() && l[o][i] == x;
            if i < k {
                assert(l[o].remove(k)[i] == x);
            } else {
                assert(i != k);
                assert(l[o].remove(k)[i - 1] == x);
            }
        }
    }
    assert forall|q: int, x: usize| 0 <= q <= MAX_ORDER implies (#[trigger] l2[q].contains(x) <==> listed(f2, lower, q, x)) by {
        assert(l[q].contains(x) <==> listed(f, fi, q, x));
    }
    assert forall|q: int| 0 <= q <= MAX_ORDER implies #[trigger] l2[q].no_duplicates() by {
        assert(l[q].no_duplicates());
        if q == o {
            assert forall|i: int, m: int| 0 <= i < m < l2[q].len() implies l2[q][i] != l2[q][m] by {
                let i1 = if i < k { i } else { i + 1 };
                let m1 = if m < k { m } else { m + 1 };
                assert(l2[q][i] == l[o][i1]);
                assert(l2[q][m] == l[o][m1]);
            }
        }
    }
    let lhs = free_outside(f2, w2, lower).union(block_frames(lower, o + 1));
    let rhs = free_outside(f, w, fi).union(block_frames(fi, o));
    assert forall|j: int| #[trigger] lhs.contains(j) == rhs.contains(j) by {
        if 0 <= j < f.len() {
            assert(owner_ok(f, w, j));
            if lower <= j < lower + blen(o + 1) {
                if fi <= j < fi + blen(o) {
                    assert(w[j] == fi);
                } else {
                    assert(w[j] == b);
                }
            } else if w[j] == fi || w[j] == b {
                assert(false);
            }
        }
    }
    assert(lhs =~= rhs);
}

/// Whether a frame is aligned to order `k`, tested with a mask.
pub proof fn lemma_mask_aligned(x: usize, k: usize)
    requires
        k <= MAX_ORDER,
    ensures
        ((x & (((1usize << k) - 1) as usize)) == 0) == aligned(x as int, k as int),
{
    assert(((x & (((1usize << k) - 1) as usize)) == 0) == ((x as u64) & (((1u64 << (k as u64)) - 1) as u64) == 0))
        by (bit_vector)
        requires
            k <= 10,
    ;
}

/// Installing a free block of order `o` over frames that were all reserved, and listing it,
/// keeps the blocks and lists well formed and adds its frames to the free frames.
pub proof fn lemma_install(f: Seq<FrameInfo>, w: Seq<int>, l: Seq<Seq<usize>>, x: int, o: int)
    requires
        blocks_ok(f, w),
        lists_ok(f, l, -1),
        f.len() <= MAX_FRAMES,
        f.len() <= usize::MAX,
        0 <= o <= MAX_ORDER,
        0 <= x,
        x + blen(o) <= f.len(),
        aligned(x, o),
        forall|j: int| x <= j < x + blen(o) ==> #[trigger] f[j].ty == FrameType::Reserved,
    ensures
        ({
            let f2 = Seq::new(
                f.len(),
                |j: int|
                    if j == x {
                        FrameInfo { ty: FrameType::Buddy, order: o as u8 }
                    } else if x < j < x + blen(o) {
                        FrameInfo { ty: FrameType::BuddyTail, order: f[j].order }
                    } else {
                        f[j]
                    },
            );
            let w2 = Seq::new(w.len(), |j: int| if x <= j < x + blen(o) { x } else { w[j] });
            let l2 = l.update(o, l[o].push(x as usize));
            &&& blocks_ok(f2, w2)
            &&& lists_ok(f2, l2, -1)
            &&& free_frames(f2, w2) == free_frames(f, w).union(block_frames(x, o))
        }),
{
    let f2 = Seq::new(
        f.len(),
        |j: int|
            if j == x {
                FrameInfo { ty: FrameType::Buddy, order: o as u8 }
            } else if x < j < x + blen(o) {
                FrameInfo { ty: FrameType::BuddyTail, order: f[j].order }
            } else {
                f[j]
            },
    );
    let w2 = Seq::new(w.len(), |j: int| if x <= j < x + blen(o) { x } else { w[j] });
    let l2 = l.update(o, l[o].push(x as usize));
    lemma_blen(o);
    assert forall|j: int| x <= j < x + blen(o) implies #[trigger] w[j] == j by {
        assert(f[j].ty == FrameType::Reserved);
        assert(owner_ok(f, w, j));
    }
    assert forall|j: int| 0 <= j < f.len() implies #[trigger] owner_ok(f2, w2, j) by {
        assert(owner_ok(f, w, j));
        if !(x <= j < x + blen(o)) {
            let h = w[j];
            if x <= h < x + blen(o) {
                assert(w[h] == h);
                assert(f[h].ty == FrameType::Reserved);
            }
        }
    }
    assert forall|h: int| 0 <= h < f.len() && is_head_type(f2[h].ty) implies #[trigger] head_ok(f2, w2, h) by {
        if h != x {
            assert(!(x < h < x + blen(o)));
            assert(head_ok(f, w, h));
            assert forall|j: int| h <= j < h + blen(f2[h].order as int) implies #[trigger] w2[j] == h by {
                assert(w[j] == h);
                if x <= j < x + blen(o) {
                    assert(w[j] == j);
                    assert(f[h].ty == FrameType::Reserved);
                }
            }
        }
    }
    assert((x as usize) as int == x);
    assert(!l[o].contains(x as usize)) by {
        if l[o].contains(x as usize) {
            assert(listed(f, -1, o, x as usize));
        }
    }
    lemma_push_new(l[o], x as usize);
    assert forall|q: int, y: usize| 0 <= q <= MAX_ORDER implies (#[trigger] l2[q].contains(y) <==> listed(f2, -1, q, y)) by {
        assert(l[q].contains(y) <==> listed(f, -1, q, y));
        if x < y < x + blen(o) {
            assert(f[y as int].ty == FrameType::Reserved);
        }
    }
    assert forall|q: int| 0 <= q <= MAX_ORDER implies #[trigger] l2[q].no_duplicates() by {
        assert(l[q].no_duplicates());
    }
    let lhs = free_frames(f2, w2);
    let rhs = free_frames(f, w).union(block_frames(x, o));
    assert forall|j: int| #[trigger] lhs.contains(j) == rhs.contains(j) by {
        if 0 <= j < f.len() {
            assert(owner_ok(f, w, j));
            let h = w[j];
            if x <= h < x + blen(o) && !(x <= j < x + blen(o)) {
                assert(w[h] == h);
                assert(f[h].ty == FrameType::Reserved);
            }
            if x <= j < x + blen(o) {
                assert(f[j].ty == FrameType::Reserved);
            }
        }
    }
    assert(lhs =~= rhs);
}

/// What the allocator records of one physical frame: what the frame is used for, and for the
/// first frame of a block, the block's order.
#[derive(Clone, Copy, Debug, PartialEq, Eq, Structural)]
pub struct FrameInfo {
    pub ty: FrameType,
    pub order: u8,
}

/// Whether frames of type `t` start a block: a free one, an allocated one, or one handed to the
/// small-object slabs.
pub open spec fn is_head_type(t: FrameType) -> bool {
    t == FrameType::Buddy || t == FrameType::BuddyAllocated || t == FrameType::Slab
}

/// Frame `j` is described consistently with its recorded owner `w[j]`: a frame is its own owner
/// exactly when it is not the tail of a block, and a tail lies inside its owner's block.
pub open spec fn owner_ok(f: Seq<FrameInfo>, w: Seq<int>, j: int) -> bool {
    let h = w[j];
    &&& 0 <= h <= j
    &&& (h == j ==> f[j].ty != FrameType::BuddyTail)
    &&& (h != j ==> f[j].ty == FrameType::BuddyTail && is_head_type(f[h].ty) && j < h + blen(
        f[h].order as int,
    ))
}

/// The block that starts at frame `h` is aligned to its order, lies within the frames, and all
/// its frames are owned by `h`.
pub open spec fn head_ok(f: Seq<FrameInfo>, w: Seq<int>, h: int) -> bool {
    &&& f[h].order <= MAX_ORDER
    &&& aligned(h, f[h].order as int)
    &&& h + blen(f[h].order as int) <= f.len()
    &&& forall|j: int| h <= j < h + blen(f[h].order as int) ==> #[trigger] w[j] == h
}

/// The frames are split into blocks: every frame is owned consistently, and every block is
/// well placed.
pub open spec fn blocks_ok(f: Seq<FrameInfo>, w: Seq<int>) -> bool {
    &&& w.len() == f.len()
    &&& forall|j: int| 0 <= j < f.len() ==> #[trigger] owner_ok(f, w, j)
    &&& forall|h: int| 0 <= h < f.len() && is_head_type(f[h].ty) ==> #[trigger] head_ok(f, w, h)
}

/// Whether frame `x` belongs on the free list of order `o`, frame `d` aside: it starts a free
/// block of that order.
pub open spec fn listed(f: Seq<FrameInfo>, d: int, o: int, x: usize) -> bool {
    &&& x < f.len()
    &&& x != d
    &&& f[x as int].ty == FrameType::Buddy
    &&& f[x as int].order == o
}

/// The free lists, one per order, hold each free block of their order once, frame `d` aside.
pub open spec fn lists_ok(f: Seq<FrameInfo>, l: Seq<Seq<usize>>, d: int) -> bool {
    &&& l.len() == MAX_ORDER + 1
    &&& forall|o: int| 0 <= o <= MAX_ORDER ==> #[trigger] l[o].no_duplicates()
    &&& forall|o: int, x: usize| 0 <= o <= MAX_ORDER ==> (#[trigger] l[o].contains(x) <==> listed(f, d, o, x))
}

/// The frames that lie in free blocks.
pub open spec fn free_frames(f: Seq<FrameInfo>, w: Seq<int>) -> Set<int> {
    Set::new(|j: int| 0 <= j < f.len() && f[w[j]].ty == FrameType::Buddy)
}

/// The frames of the block of order `o` that starts at frame `x`.
pub open spec fn block_frames(x: int, o: int) -> Set<int> {
    Set::new(|j: int| x <= j < x + blen(o))
}

/// The least order from `o` up whose free list is not empty; `MAX_ORDER + 1` if there is none.
pub open spec fn first_nonempty(l: Seq<Seq<usize>>, o: int) -> int
    decreases MAX_ORDER + 1 - o,
{
    if o > MAX_ORDER {
        MAX_ORDER + 1
    } else if l[o].len() > 0 {
        o
    } else {
        first_nonempty(l, o + 1)
    }
}

/// The page-frame allocator: frames are handed out in blocks of `2^order` frames, aligned to
/// their size, split from larger free blocks on demand and merged with their free buddies when
/// they come back.
pub struct BuddyAllocator {
    frames: Vec<FrameInfo>,
    heads: Vec<Vec<usize>>,
    owner: Ghost<Seq<int>>,
}

impl BuddyAllocator {
    /// What the allocator records of each frame.
    pub closed spec fn frames_view(&self) -> Seq<FrameInfo> {
        self.frames@
    }

    /// The free lists, one per order, front first.
    pub closed spec fn lists(&self) -> Seq<Seq<usize>> {
        Seq::new(self.heads@.len(), |o: int| self.heads@[o]@)
    }

    /// The frame that starts the block each frame lies in.
    pub closed spec fn owners(&self) -> Seq<int> {
        self.owner@
    }

    /// The allocator's invariant.
    pub closed spec fn wf(&self) -> bool {
        &&& self.frames@.len() as int % (MAX_BLOCK_FRAMES as int) == 0
        &&& self.frames@.len() <= MAX_FRAMES
        &&& blocks_ok(self.frames@, self.owner@)
        &&& lists_ok(self.frames@, self.lists(), -1)
    }

    /// The frames that lie in free blocks.
    pub closed spec fn free_set(&self) -> Set<int> {
        free_frames(self.frames@, self.owner@)
    }

    /// Whether a free block of order `order` or larger is left.
    pub closed spec fn has_free_block(&self, order: int) -> bool {
        first_nonempty(self.lists(), order) <= MAX_ORDER
    }

    /// The frame that the next allocation of order `order` hands out: the front of the first
    /// non-empty free list from that order up.
    pub closed spec fn next_block(&self, order: int) -> int {
        self.lists()[first_nonempty(self.lists(), order)][0] as int
    }

    /// An allocator for `n_frames` frames, all reserved: nothing is free until it is given
    /// free ranges.
    pub fn new(n_frames: usize) -> (r: Self)
        requires
            n_frames % MAX_BLOCK_FRAMES == 0,
            n_frames <= MAX_FRAMES,
        ensures
            r.wf(),
            r.frames_view().len() == n_frames,
            forall|j: int| 0 <= j < n_frames ==> #[trigger] r.frames_view()[j] == (FrameInfo { ty: FrameType::Reserved, order: 0 }),
            r.free_set() == Set::<int>::empty(),
            forall|o: int| 0 <= o <= MAX_ORDER ==> #[trigger] r.lists()[o].len() == 0,
    {
        let mut frames: Vec<FrameInfo> = Vec::new();
        let mut i: usize = 0;
        while i < n_frames
            invariant
                i <= n_frames,
                frames@.len() == i,
                forall|j: int| 0 <= j < i ==> #[trigger] frames@[j] == (FrameInfo { ty: FrameType::Reserved, order: 0 }),
            decreases n_frames - i,
        {
            frames.push(FrameInfo { ty: FrameType::Reserved, order: 0 });
            i = i + 1;
        }
        let mut heads: Vec<Vec<usize>> = Vec::new();
        let mut o: usize = 0;
        while o <= MAX_ORDER
            invariant
                o <= MAX_ORDER + 1,
                heads@.len() == o,
                forall|k: int| 0 <= k < o ==> (#[trigger] heads@[k])@.len() == 0,
            decreases MAX_ORDER + 1 - o,
        {
            heads.push(Vec::new());
            o = o + 1;
        }
        let ghost w = Seq::new(n_frames as nat, |j: int| j);
        let r = BuddyAllocator { frames, heads, owner: Ghost(w) };
        proof {
            assert forall|j: int| 0 <= j < n_frames implies #[trigger] owner_ok(frames@, w, j) by {}
            assert forall|o: int, x: usize| 0 <= o <= MAX_ORDER implies (#[trigger] r.lists()[o].contains(x)
                <==> listed(frames@, -1, o, x)) by {
                if r.lists()[o].contains(x) {
                    let k = choose|k: int| 0 <= k < r.lists()[o].len() && r.lists()[o][k] == x;
                }
            }
            assert(r.free_set() =~= Set::<int>::empty());
        }
        r
    }

    /// Records that the allocated block that starts at frame `fr` was handed to the
    /// small-object slabs.
    pub fn set_slab(&mut self, fr: usize)
        requires
            old(self).wf(),
            fr < old(self).frames_view().len(),
            old(self).frames_view()[fr as int].ty == FrameType::BuddyAllocated,
        ensures
            final(self).wf(),
            final(self).frames_view() == old(self).frames_view().update(
                fr as int,
                FrameInfo { ty: FrameType::Slab, order: old(self).frames_view()[fr as int].order },
            ),
            final(self).free_set() == old(self).free_set(),
            final(self).lists() == old(self).lists(),
    {
        let order = self.frames[fr].order;
        self.frames.set(fr, FrameInfo { ty: FrameType::Slab, order });
        proof {
            let f0 = old(self).frames@;
            let f = self.frames@;
            let w = self.owner@;
            assert(self.lists() =~= old(self).lists());
            assert forall|j: int| 0 <= j < f.len() implies #[trigger] owner_ok(f, w, j) by {
                assert(owner_ok(f0, w, j));
            }
            assert forall|h: int| 0 <= h < f.len() && is_head_type(f[h].ty) implies #[trigger] head_ok(f, w, h) by {
                assert(head_ok(f0, w, h));
            }
            assert forall|o: int, x: usize| 0 <= o <= MAX_ORDER implies (#[trigger] self.lists()[o].contains(x)
                <==> listed(f, -1, o, x)) by {
                assert(old(self).lists()[o].contains(x) <==> listed(f0, -1, o, x));
            }
            assert forall|j: int| #[trigger] self.free_set().contains(j) == old(self).free_set().contains(j) by {
                if 0 <= j < f.len() {
                    assert(owner_ok(f0, w, j));
                }
            }
            assert(self.free_set() =~= old(self).free_set());
        }
    }

    /// A frame that is neither free nor the tail of a block, such as the first frame of an
    /// allocated block or of a slab, does not lie in a free block.
    pub proof fn lemma_not_free(&self, j: int)
        requires
            self.wf(),
            0 <= j < self.frames_view().len(),
            self.frames_view()[j].ty != FrameType::Buddy,
            self.frames_view()[j].ty != FrameType::BuddyTail,
        ensures
            !self.free_set().contains(j),
    {
        assert(owner_ok(self.frames@, self.owner@, j));
    }

    /// The frames of a block after its first are tails of the block.
    pub proof fn lemma_block_tails(&self, h: int, j: int)
        requires
            self.wf(),
            0 <= h < self.frames_view().len(),
            is_head_type(self.frames_view()[h].ty),
            h < j < h + blen(self.frames_view()[h].order as int),
        ensures
            self.frames_view()[j].ty == FrameType::BuddyTail,
    {
        assert(head_ok(self.frames@, self.owner@, h));
        assert(owner_ok(self.frames@, self.owner@, j));
    }

    /// The free frames are frames of the allocator.
    pub proof fn lemma_free_set_bounded(&self, j: int)
        requires
            self.free_set().contains(j),
        ensures
            0 <= j < self.frames_view().len(),
    {
    }

    /// The number of frames the allocator describes.
    pub fn n_frames(&self) -> (n: usize)
        ensures
            n == self.frames_view().len(),
    {
        self.frames.len()
    }

    /// What the allocator records of frame `i`.
    pub fn frame(&self, i: usize) -> (fi: FrameInfo)
        requires
            i < self.frames_view().len(),
        ensures
            fi == self.frames_view()[i as int],
    {
        self.frames[i]
    }
}


impl BuddyAllocator {
    /// Takes the front block off the first non-empty free list from order `order` up, and
    /// returns its first frame and its order.
    fn alloc_min(&mut self, order: usize) -> (r: Option<(usize, usize)>)
        requires
            old(self).wf(),
            order <= MAX_ORDER,
        ensures
            final(self).frames_view() == old(self).frames_view(),
            final(self).owners() == old(self).owners(),
            final(self).heads@.len() == old(self).heads@.len(),
            r is None ==> *final(self) == *old(self),
            match r {
                None => !old(self).has_free_block(order as int) && final(self).lists() == old(self).lists(),
                Some((fi, o)) => {
                    &&& o == first_nonempty(old(self).lists(), order as int)
                    &&& order <= o <= MAX_ORDER
                    &&& old(self).lists()[o as int].len() > 0
                    &&& fi == old(self).lists()[o as int][0]
                    &&& final(self).lists() == old(self).lists().update(
                        o as int,
                        old(self).lists()[o as int].drop_first(),
                    )
                },
            },
    {
        let mut o = order;
        while o <= MAX_ORDER && self.heads[o].len() == 0
            invariant
                order <= o <= MAX_ORDER + 1,
                self.heads@.len() == MAX_ORDER + 1,
                *self == *old(self),
                old(self).wf(),
                first_nonempty(old(self).lists(), order as int) == first_nonempty(old(self).lists(), o as int),
            decreases MAX_ORDER + 1 - o,
        {
            assert(old(self).lists()[o as int].len() == 0);
            o = o + 1;
        }
        if o > MAX_ORDER {
            return None;
        }
        assert(self.lists()[o as int].len() > 0);
        let fi = self.heads[o].remove(0);
        proof {
            assert(self.lists() =~= old(self).lists().update(o as int, old(self).lists()[o as int].drop_first()));
        }
        Some((fi, o))
    }

    /// Splits the detached free block of order `order` at frame `fi` down to order
    /// `target_order`, listing each upper half it splits off as a free block.
    fn split(&mut self, fi: usize, order: usize, target_order: usize)
        requires
            blocks_ok(old(self).frames@, old(self).owner@),
            lists_ok(old(self).frames@, old(self).lists(), fi as int),
            old(self).heads@.len() == MAX_ORDER + 1,
            old(self).frames@.len() <= MAX_FRAMES,
            fi < old(self).frames@.len(),
            old(self).frames@[fi as int] == (FrameInfo { ty: FrameType::Buddy, order: order as u8 }),
            target_order <= order <= MAX_ORDER,
        ensures
            blocks_ok(final(self).frames@, final(self).owner@),
            lists_ok(final(self).frames@, final(self).lists(), fi as int),
            final(self).heads@.len() == MAX_ORDER + 1,
            final(self).frames@.len() == old(self).frames@.len(),
            final(self).frames@[fi as int] == (FrameInfo { ty: FrameType::Buddy, order: target_order as u8 }),
            free_frames(final(self).frames@, final(self).owner@) == free_frames(old(self).frames@, old(self).owner@),
            forall|j: int|
                0 <= j < old(self).frames@.len() && old(self).owner@[j] != fi
                    ==> #[trigger] final(self).frames@[j] == old(self).frames@[j],
            forall|j: int|
                0 <= j < old(self).frames@.len() ==> (#[trigger] final(self).frames@[j].ty == FrameType::Slab
                    <==> old(self).frames@[j].ty == FrameType::Slab),
    {
        proof {
            assert(head_ok(old(self).frames@, old(self).owner@, fi as int));
        }
        let mut order = order;
        while order > target_order
            invariant
                target_order <= order <= MAX_ORDER,
                blocks_ok(self.frames@, self.owner@),
                lists_ok(self.frames@, self.lists(), fi as int),
                self.heads@.len() == MAX_ORDER + 1,
                self.frames@.len() == old(self).frames@.len(),
                old(self).frames@.len() <= MAX_FRAMES,
                fi < self.frames@.len(),
                self.frames@[fi as int] == (FrameInfo { ty: FrameType::Buddy, order: order as u8 }),
                free_frames(self.frames@, self.owner@) == free_frames(old(self).frames@, old(self).owner@),
                forall|j: int| fi <= j < fi + blen(order as int) ==> #[trigger] old(self).owner@[j] == fi,
                forall|j: int|
                    0 <= j < old(self).frames@.len() && old(self).owner@[j] != fi
                        ==> #[trigger] self.frames@[j] == old(self).frames@[j],
                forall|j: int|
                    0 <= j < old(self).frames@.len() ==> (#[trigger] self.frames@[j].ty == FrameType::Slab
                        <==> old(self).frames@[j].ty == FrameType::Slab),
            decreases order,
        {
            proof {
                assert(self.frames.len() == self.frames@.len());
                lemma_split_step(self.frames@, self.owner@, self.lists(), fi as int, order as int);
                lemma_shl_blen((order - 1) as usize);
            }
            let ghost l0 = self.lists();
            let ghost w0 = self.owner@;
            proof {
                lemma_blen(order - 1);
                lemma_blen(order as int);
                assert(old(self).owner@[fi + blen(order - 1)] == fi);
                assert(old(self).owner@[fi as int] == fi);
                assert(head_ok(self.frames@, self.owner@, fi as int));
                assert(owner_ok(self.frames@, self.owner@, fi + blen(order - 1)));
            }
            let other = fi + (1usize << (order - 1));
            self.heads[order - 1].push(other);
            self.frames.set(other, FrameInfo { ty: FrameType::Buddy, order: (order - 1) as u8 });
            self.frames.set(fi, FrameInfo { ty: FrameType::Buddy, order: (order - 1) as u8 });
            let ghost half = blen(order - 1);
            self.owner = Ghost(Seq::new(w0.len(), |j: int| if other <= j < other + half { other as int } else { w0[j] }));
            proof {
                assert(self.lists() =~= l0.update(order - 1, l0[order - 1].push(other)));
            }
            order = order - 1;
        }
    }

    /// Allocates a block of `2^order` frames and returns the address of its first byte, or
    /// `None` when no free block of that order or a larger one is left. The block handed out
    /// starts the front block of the first non-empty free list from that order up; what is
    /// left of that block is listed as free blocks of the orders below.
    pub fn allocate(&mut self, order: usize) -> (r: Option<u64>)
        requires
            old(self).wf(),
            order <= MAX_ORDER,
        ensures
            final(self).wf(),
            final(self).frames_view().len() == old(self).frames_view().len(),
            r is None <==> !old(self).has_free_block(order as int),
            r is None ==> *final(self) == *old(self),
            forall|j: int|
                0 <= j < old(self).frames_view().len() && !old(self).free_set().contains(j)
                    ==> #[trigger] final(self).frames_view()[j] == old(self).frames_view()[j],
            forall|j: int|
                0 <= j < old(self).frames_view().len() ==> (#[trigger] final(self).frames_view()[j].ty
                    == FrameType::Slab <==> old(self).frames_view()[j].ty == FrameType::Slab),
            match r {
                None => true,
                Some(addr) => {
                    &&& addr % 4096 == 0
                    &&& addr / 4096 == old(self).next_block(order as int)
                    &&& aligned((addr / 4096) as int, order as int)
                    &&& addr / 4096 + blen(order as int) <= old(self).frames_view().len()
                    &&& block_frames((addr / 4096) as int, order as int).subset_of(old(self).free_set())
                    &&& final(self).free_set() == old(self).free_set().difference(
                        block_frames((addr / 4096) as int, order as int),
                    )
                    &&& final(self).frames_view()[(addr / 4096) as int] == (FrameInfo {
                        ty: FrameType::BuddyAllocated,
                        order: order as u8,
                    })
                },
            },
    {
        let (fi, o) = match self.alloc_min(order) {
            Some(p) => p,
            None => {
                return None;
            },
        };
        proof {
            let l = old(self).lists();
            lemma_drop_front(l[o as int]);
            assert(l[o as int].contains(fi));
            assert(listed(self.frames@, -1, o as int, fi));
            assert forall|k: int, x: usize| 0 <= k <= MAX_ORDER implies (#[trigger] self.lists()[k].contains(x)
                <==> listed(self.frames@, fi as int, k, x)) by {
                assert(l[k].contains(x) <==> listed(self.frames@, -1, k, x));
            }
            assert forall|k: int| 0 <= k <= MAX_ORDER implies #[trigger] self.lists()[k].no_duplicates() by {
                assert(l[k].no_duplicates());
            }
        }
        self.split(fi, o, order);
        let ghost f1 = self.frames@;
        let ghost l1 = self.lists();
        self.frames.set(fi, FrameInfo { ty: FrameType::BuddyAllocated, order: order as u8 });
        proof {
            let f = self.frames@;
            let w = self.owner@;
            assert(head_ok(f1, w, fi as int));
            assert forall|j: int| 0 <= j < f.len() implies #[trigger] owner_ok(f, w, j) by {
                assert(owner_ok(f1, w, j));
            }
            assert forall|h: int| 0 <= h < f.len() && is_head_type(f[h].ty) implies #[trigger] head_ok(f, w, h) by {
                assert(head_ok(f1, w, h));
            }
            assert forall|k: int, x: usize| 0 <= k <= MAX_ORDER implies (#[trigger] l1[k].contains(x)
                <==> listed(f, -1, k, x)) by {
                assert(l1[k].contains(x) <==> listed(f1, fi as int, k, x));
            }
            lemma_blen(order as int);
            assert(((fi as u64) * 4096) as int / 4096 == fi);
            assert forall|j: int| #[trigger] self.free_set().contains(j) == old(self).free_set().difference(
                block_frames(fi as int, order as int)).contains(j) by {
                if 0 <= j < f.len() {
                    assert(owner_ok(f1, w, j));
                    if fi <= j < fi + blen(order as int) {
                        assert(w[j] == fi);
                    }
                }
            }
            assert(self.free_set() =~= old(self).free_set().difference(block_frames(fi as int, order as int)));
            assert forall|j: int| block_frames(fi as int, order as int).contains(j) implies #[trigger] old(self).free_set().contains(j) by {
                assert(w[j] == fi);
                assert(free_frames(f1, w).contains(j));
            }
        }
        Some((fi as u64) * 4096)
    }
}

/// The position of `item` in `list`, which holds it.
pub(crate) fn position_of(list: &Vec<usize>, item: usize) -> (k: usize)
    requires
        list@.contains(item),
    ensures
        k < list@.len(),
        list@[k as int] == item,
{
    let mut k: usize = 0;
    while k < list.len() && list[k] != item
        invariant
            k <= list@.len(),
            list@.contains(item),
            forall|i: int| 0 <= i < k ==> list@[i] != item,
        decreases list@.len() - k,
    {
        k = k + 1;
    }
    if k == list.len() {
        proof {
            let i = choose|i: int| 0 <= i < list@.len() && list@[i] == item;
            assert(list@[i] != item);
        }
    }
    k
}

impl BuddyAllocator {
    /// Merges the detached block of order `order` at frame `fi` with its buddy as long as the
    /// buddy is a free block of the same order, taking each such buddy off its free list, and
    /// returns the first frame and the order of the merged block.
    fn merge(&mut self, fi: usize, order: usize) -> (r: (usize, usize))
        requires
            blocks_ok(old(self).frames@, old(self).owner@),
            lists_ok(old(self).frames@, old(self).lists(), fi as int),
            old(self).heads@.len() == MAX_ORDER + 1,
            old(self).frames@.len() <= MAX_FRAMES,
            old(self).frames@.len() as int % (MAX_BLOCK_FRAMES as int) == 0,
            fi < old(self).frames@.len(),
            is_head_type(old(self).frames@[fi as int].ty),
            old(self).frames@[fi as int].order == order,
            order <= MAX_ORDER,
        ensures
            blocks_ok(final(self).frames@, final(self).owner@),
            lists_ok(final(self).frames@, final(self).lists(), r.0 as int),
            final(self).heads@.len() == MAX_ORDER + 1,
            final(self).frames@.len() == old(self).frames@.len(),
            r.0 < final(self).frames@.len(),
            r.1 <= MAX_ORDER,
            is_head_type(final(self).frames@[r.0 as int].ty),
            final(self).frames@[r.0 as int].order == r.1,
            free_outside(final(self).frames@, final(self).owner@, r.0 as int).union(
                block_frames(r.0 as int, r.1 as int),
            ) == free_outside(old(self).frames@, old(self).owner@, fi as int).union(
                block_frames(fi as int, order as int),
            ),
            forall|j: int|
                0 <= j < old(self).frames@.len() && !free_outside(old(self).frames@, old(self).owner@, fi as int).union(
                    block_frames(fi as int, order as int),
                ).contains(j) ==> #[trigger] final(self).frames@[j] == old(self).frames@[j],
            forall|j: int|
                0 <= j < old(self).frames@.len() ==> (#[trigger] final(self).frames@[j].ty == FrameType::Slab
                    ==> old(self).frames@[j].ty == FrameType::Slab && (j != fi || j == r.0)),
    {
        let ghost fi0 = fi as int;
        let ghost order0 = order as int;
        let mut fi = fi;
        let mut order = order;
        while order < MAX_ORDER
            invariant
                order <= MAX_ORDER,
                blocks_ok(self.frames@, self.owner@),
                lists_ok(self.frames@, self.lists(), fi as int),
                self.heads@.len() == MAX_ORDER + 1,
                self.frames@.len() == old(self).frames@.len(),
                old(self).frames@.len() <= MAX_FRAMES,
                old(self).frames@.len() as int % (MAX_BLOCK_FRAMES as int) == 0,
                fi < self.frames@.len(),
                is_head_type(self.frames@[fi as int].ty),
                self.frames@[fi as int].order == order,
                free_outside(self.frames@, self.owner@, fi as int).union(block_frames(fi as int, order as int))
                    == free_outside(old(self).frames@, old(self).owner@, fi0).union(block_frames(fi0, order0)),
                forall|j: int|
                    0 <= j < old(self).frames@.len() && !free_outside(old(self).frames@, old(self).owner@, fi0).union(
                        block_frames(fi0, order0),
                    ).contains(j) ==> #[trigger] self.frames@[j] == old(self).frames@[j],
                forall|j: int|
                    0 <= j < old(self).frames@.len() ==> (#[trigger] self.frames@[j].ty == FrameType::Slab
                        ==> old(self).frames@[j].ty == FrameType::Slab && (j != fi0 || j == fi)),
            decreases MAX_ORDER - order,
        {
            proof {
                assert(self.frames.len() == self.frames@.len());
                lemma_buddy_not_tail(self.frames@, self.owner@, fi as int, order as int);
                lemma_shl_blen(order);
                lemma_blen(order as int);
                assert(head_ok(self.frames@, self.owner@, fi as int));
                lemma_pair(fi, blen(order as int) as usize, order as int);
            }
            let size = 1usize << order;
            let buddy = fi ^ size;
            let bf = self.frames[buddy];
            match bf.ty {
                FrameType::Reserved | FrameType::BuddyAllocated | FrameType::Slab => {
                    break;
                },
                FrameType::Buddy => {
                    if bf.order as usize != order {
                        break;
                    }
                    proof {
                        assert(listed(self.frames@, fi as int, order as int, buddy));
                        assert(self.lists()[order as int].contains(buddy));
                    }
                    let k = position_of(&self.heads[order], buddy);
                    let ghost f0 = self.frames@;
                    let ghost w0 = self.owner@;
                    let ghost l0 = self.lists();
                    proof {
                        lemma_merge_step(f0, w0, l0, fi as int, order as int, k as int);
                    }
                    self.heads[order].remove(k);
                    let lower = fi & !size;
                    let higher = fi | size;
                    let hf = self.frames[higher];
                    self.frames.set(higher, FrameInfo { ty: FrameType::BuddyTail, order: hf.order });
                    let lf = self.frames[lower];
                    self.frames.set(lower, FrameInfo { ty: lf.ty, order: (order + 1) as u8 });
                    let ghost big = blen(order + 1);
                    self.owner = Ghost(Seq::new(w0.len(), |j: int| if lower <= j < lower + big { lower as int } else { w0[j] }));
                    proof {
                        assert(self.lists() =~= l0.update(order as int, l0[order as int].remove(k as int)));
                    }
                    fi = lower;
                    order = order + 1;
                },
                FrameType::BuddyTail => {
                    proof {
                        assert(false);
                    }
                    break;
                },
            }
        }
        (fi, order)
    }

    /// Gives back the block of `2^order` frames that starts at address `addr`, which was
    /// allocated with that order, merging it with its free buddies into as large a free block
    /// as they make up.
    pub fn free(&mut self, addr: u64, order: usize)
        requires
            old(self).wf(),
            addr % 4096 == 0,
            addr / 4096 < old(self).frames_view().len(),
            old(self).frames_view()[(addr / 4096) as int].ty == FrameType::BuddyAllocated
                || old(self).frames_view()[(addr / 4096) as int].ty == FrameType::Slab,
            old(self).frames_view()[(addr / 4096) as int].order == order,
        ensures
            final(self).wf(),
            final(self).frames_view().len() == old(self).frames_view().len(),
            final(self).free_set() == old(self).free_set().union(block_frames((addr / 4096) as int, order as int)),
            forall|j: int|
                0 <= j < old(self).frames_view().len() && !old(self).free_set().contains(j) && !block_frames(
                    (addr / 4096) as int,
                    order as int,
                ).contains(j) ==> #[trigger] final(self).frames_view()[j] == old(self).frames_view()[j],
            forall|j: int|
                0 <= j < old(self).frames_view().len() ==> (#[trigger] final(self).frames_view()[j].ty
                    == FrameType::Slab <==> (old(self).frames_view()[j].ty == FrameType::Slab && j != addr / 4096)),
    {
        let fi = (addr / 4096) as usize;
        proof {
            assert(self.frames.len() == self.frames@.len());
            assert(fi as int == (addr / 4096) as int);
            let f = self.frames@;
            assert(head_ok(f, self.owner@, fi as int));
            assert forall|o: int, x: usize| 0 <= o <= MAX_ORDER implies (#[trigger] self.lists()[o].contains(x)
                <==> listed(f, fi as int, o, x)) by {
                assert(self.lists()[o].contains(x) <==> listed(f, -1, o, x));
            }
        }
        let (mfi, mo) = self.merge(fi, order);
        let ghost f1 = self.frames@;
        let ghost l1 = self.lists();
        proof {
            assert(!l1[mo as int].contains(mfi)) by {
                if l1[mo as int].contains(mfi) {
                    assert(listed(f1, mfi as int, mo as int, mfi));
                }
            }
            lemma_push_new(l1[mo as int], mfi);
        }
        self.heads[mo].push(mfi);
        self.frames.set(mfi, FrameInfo { ty: FrameType::Buddy, order: mo as u8 });
        proof {
            let f = self.frames@;
            let w = self.owner@;
            lemma_blen(mo as int);
            assert(self.lists() =~= l1.update(mo as int, l1[mo as int].push(mfi)));
            assert(head_ok(f1, w, mfi as int));
            assert forall|j: int| 0 <= j < f.len() implies #[trigger] owner_ok(f, w, j) by {
                assert(owner_ok(f1, w, j));
            }
            assert forall|h: int| 0 <= h < f.len() && is_head_type(f[h].ty) implies #[trigger] head_ok(f, w, h) by {
                assert(head_ok(f1, w, h));
            }
            assert forall|o: int, x: usize| 0 <= o <= MAX_ORDER implies (#[trigger] self.lists()[o].contains(x)
                <==> listed(f, -1, o, x)) by {
                assert(l1[o].contains(x) <==> listed(f1, mfi as int, o, x));
            }
            assert forall|o: int| 0 <= o <= MAX_ORDER implies #[trigger] self.lists()[o].no_duplicates() by {
                assert(l1[o].no_duplicates());
            }
            let f0 = old(self).frames@;
            let w0 = old(self).owner@;
            assert(block_frames(mfi as int, mo as int).contains(mfi as int));
            assert(free_outside(f0, w0, fi as int) =~= free_frames(f0, w0)) by {
                assert forall|j: int| #[trigger] free_frames(f0, w0).contains(j) implies w0[j] != fi by {
                    if w0[j] == fi {
                        assert(f0[fi as int].ty != FrameType::Buddy);
                    }
                }
            }
            assert(free_frames(f, w) =~= free_outside(f1, w, mfi as int).union(block_frames(mfi as int, mo as int))) by {
                assert forall|j: int| #[trigger] free_frames(f, w).contains(j) == free_outside(f1, w, mfi as int).union(
                    block_frames(mfi as int, mo as int)).contains(j) by {
                    if 0 <= j < f.len() {
                        assert(owner_ok(f1, w, j));
                        if mfi <= j < mfi + blen(mo as int) {
                            assert(w[j] == mfi);
                        }
                        if w[j] == mfi as int {
                            assert(block_frames(mfi as int, mo as int).contains(j));
                        } else {
                            assert(f[w[j]] == f1[w[j]]);
                        }
                    }
                    if block_frames(mfi as int, mo as int).contains(j) {
                        assert(w[j] == mfi);
                        assert(0 <= j < f.len());
                    }
                }
            }
            assert forall|j: int|
                0 <= j < f0.len() && !old(self).free_set().contains(j) && !block_frames(fi as int, order as int).contains(j)
                    implies #[trigger] f[j] == f0[j] by {
                assert(!free_outside(f0, w0, fi as int).union(block_frames(fi as int, order as int)).contains(j));
                assert(j != mfi);
            }
            assert forall|j: int| 0 <= j < f0.len() implies (#[trigger] f[j].ty == FrameType::Slab <==> (
            f0[j].ty == FrameType::Slab && j != fi)) by {
                if f0[j].ty == FrameType::Slab && j != fi {
                    assert(owner_ok(f0, w0, j));
                    assert(head_ok(f0, w0, fi as int));
                    assert(!block_frames(fi as int, order as int).contains(j));
                    assert(!old(self).free_set().contains(j));
                }
            }
        }
    }
}

/// Whether the free range `r`, from its first byte up to its end, holds frame `j`.
pub open spec fn range_has(r: (u64, u64), j: int) -> bool {
    r.0 / 4096 <= j < r.1 / 4096
}

/// The frames that the ranges `rs` hold.
pub open spec fn ranges_frames(rs: Seq<(u64, u64)>) -> Set<int> {
    Set::new(|j: int| exists|k: int| 0 <= k < rs.len() && #[trigger] range_has(rs[k], j))
}

/// The order of the block that starts a free range at frame `fr` with `rem` frames left: the
/// largest order up to `MAX_ORDER` to which `fr` is aligned and whose block fits in `rem` frames,
/// which is the lesser of the trailing zeros of `fr` (capped at `MAX_ORDER`) and the base-2
/// logarithm of `rem`.
fn init_order(fr: usize, rem: usize) -> (o: usize)
    requires
        rem >= 1,
    ensures
        o <= MAX_ORDER,
        aligned(fr as int, o as int),
        blen(o as int) <= rem,
        o == MAX_ORDER || !aligned(fr as int, o + 1) || blen(o + 1) > rem,
{
    let mut o: usize = 0;
    proof {
        lemma_blen(0);
        let xu = fr as u64;
        assert(xu & (((1u64 << 0u64) - 1) as u64) == 0) by (bit_vector);
    }
    loop
        invariant
            o <= MAX_ORDER,
            aligned(fr as int, o as int),
            blen(o as int) <= rem,
        decreases MAX_ORDER - o,
    {
        if o == MAX_ORDER {
            return o;
        }
        proof {
            lemma_blen(o as int);
            lemma_blen(o + 1);
            lemma_shl_blen((o + 1) as usize);
            lemma_mask_aligned(fr, (o + 1) as usize);
        }
        let size = 1usize << (o + 1);
        if fr & (size - 1) != 0 || size > rem {
            return o;
        }
        o = o + 1;
    }
}

/// The block of order `o` at frame `x` starts on a multiple of its length and lies inside one
/// of the byte ranges `rs`.
pub open spec fn block_in_ranges(rs: Seq<(u64, u64)>, x: int, o: int) -> bool {
    &&& aligned(x, o)
    &&& exists|k: int| 0 <= k < rs.len() && (#[trigger] rs[k]).0 / 4096 <= x && x + blen(o) <= rs[k].1 / 4096
}

/// The free lists `l1` are `l0` with blocks added at their ends, each inside one of `rs`.
pub open spec fn lists_extended(l0: Seq<Seq<usize>>, l1: Seq<Seq<usize>>, rs: Seq<(u64, u64)>) -> bool {
    &&& l1.len() == l0.len()
    &&& forall|o: int| 0 <= o < l0.len() ==> {
        &&& (#[trigger] l0[o]).len() <= l1[o].len()
        &&& l1[o].subrange(0, l0[o].len() as int) == l0[o]
        &&& forall|p: int| l0[o].len() <= p < l1[o].len() ==> block_in_ranges(rs, #[trigger] l1[o][p] as int, o)
    }
}

impl BuddyAllocator {
    /// Lists the frames of the free ranges as free blocks: each range, from its first byte up
    /// to its end, is cut into blocks of the largest order that its next frame is aligned to and
    /// that fits in what is left of it.
    pub fn buddy_init(&mut self, free_ranges: &Vec<(u64, u64)>)
        requires
            old(self).wf(),
            forall|k: int| 0 <= k < free_ranges@.len() ==> {
                &&& (#[trigger] free_ranges@[k]).0 % 4096 == 0
                &&& free_ranges@[k].1 % 4096 == 0
                &&& free_ranges@[k].1 / 4096 <= old(self).frames_view().len()
            },
            forall|k1: int, k2: int, j: int|
                0 <= k1 < k2 < free_ranges@.len() ==> !(#[trigger] range_has(free_ranges@[k1], j) && #[trigger] range_has(
                    free_ranges@[k2],
                    j,
                )),
            forall|j: int| #[trigger] ranges_frames(free_ranges@).contains(j) ==> old(self).frames_view()[j].ty == FrameType::Reserved,
        ensures
            final(self).wf(),
            final(self).frames_view().len() == old(self).frames_view().len(),
            final(self).free_set() == old(self).free_set().union(ranges_frames(free_ranges@)),
            lists_extended(old(self).lists(), final(self).lists(), free_ranges@),
    {
        let ghost rs = free_ranges@;
        let ghost n = self.frames@.len();
        let mut i: usize = 0;
        proof {
            assert forall|k: int, j: int| 0 <= k < rs.len() && #[trigger] range_has(rs[k], j) implies self.frames@[j].ty
                == FrameType::Reserved by {
                assert(ranges_frames(rs).contains(j));
            }
            assert(ranges_frames(rs.take(0)) =~= Set::<int>::empty());
            let l = self.lists();
            assert forall|o: int| 0 <= o < l.len() implies (#[trigger] l[o]).subrange(0, l[o].len() as int) == l[o] by {
                assert(l[o].subrange(0, l[o].len() as int) =~= l[o]);
            }
            assert(self.free_set() =~= old(self).free_set().union(ranges_frames(rs.take(0))));
        }
        while i < free_ranges.len()
            invariant
                i <= rs.len(),
                rs == free_ranges@,
                self.wf(),
                self.frames@.len() == n,
                self.heads@.len() == MAX_ORDER + 1,
                forall|k: int| 0 <= k < rs.len() ==> {
                    &&& (#[trigger] rs[k]).0 % 4096 == 0
                    &&& rs[k].1 % 4096 == 0
                    &&& rs[k].1 / 4096 <= n
                },
                forall|k1: int, k2: int, j: int|
                    0 <= k1 < k2 < rs.len() ==> !(#[trigger] range_has(rs[k1], j) && #[trigger] range_has(rs[k2], j)),
                forall|k: int, j: int| i <= k < rs.len() && #[trigger] range_has(rs[k], j) ==> self.frames@[j].ty == FrameType::Reserved,
                self.free_set() == old(self).free_set().union(ranges_frames(rs.take(i as int))),
                lists_extended(old(self).lists(), self.lists(), rs),
            decreases rs.len() - i,
        {
            let (start, end) = free_ranges[i];
            let mut addr = start;
            proof {
                assert forall|j: int| addr / 4096 <= j < end / 4096 implies #[trigger] self.frames@[j].ty == FrameType::Reserved by {
                    assert(range_has(rs[i as int], j));
                }
                assert(self.free_set() =~= old(self).free_set().union(ranges_frames(rs.take(i as int))).union(
                    Set::new(|j: int| start / 4096 <= j < addr / 4096)));
            }
            while addr < end
                invariant
                    i < rs.len(),
                    rs == free_ranges@,
                    (start, end) == rs[i as int],
                    start <= addr,
                    addr <= end || addr == start,
                    addr % 4096 == 0,
                    end % 4096 == 0,
                    end / 4096 <= n,
                    forall|k: int| 0 <= k < rs.len() ==> (#[trigger] rs[k]).1 / 4096 <= n,
                    self.wf(),
                    self.frames@.len() == n,
                    self.heads@.len() == MAX_ORDER + 1,
                    forall|k1: int, k2: int, j: int|
                        0 <= k1 < k2 < rs.len() ==> !(#[trigger] range_has(rs[k1], j) && #[trigger] range_has(rs[k2], j)),
                    forall|k: int, j: int| i < k < rs.len() && #[trigger] range_has(rs[k], j) ==> self.frames@[j].ty == FrameType::Reserved,
                    forall|j: int| addr / 4096 <= j < end / 4096 ==> #[trigger] self.frames@[j].ty == FrameType::Reserved,
                    self.free_set() == old(self).free_set().union(ranges_frames(rs.take(i as int))).union(
                        Set::new(|j: int| start / 4096 <= j < addr / 4096),
                    ),
                    lists_extended(old(self).lists(), self.lists(), rs),
                decreases end - addr,
            {
                proof {
                    assert(self.frames.len() == self.frames@.len());
                }
                let fr = (addr / 4096) as usize;
                let rem = ((end - addr) / 4096) as usize;
                proof {
                    assert(fr as int == addr / 4096);
                    assert(rem as int == (end - addr) / 4096);
                    assert(fr + rem == end / 4096);
                }
                let order = init_order(fr, rem);
                proof {
                    lemma_blen(order as int);
                    lemma_shl_blen(order);
                }
                let size = 1usize << order;
                let ghost f0 = self.frames@;
                let ghost w0 = self.owner@;
                let ghost l0 = self.lists();
                proof {
                    lemma_install(f0, w0, l0, fr as int, order as int);
                }
                self.heads[order].push(fr);
                self.frames.set(fr, FrameInfo { ty: FrameType::Buddy, order: order as u8 });
                let mut t = fr + 1;
                let stop = fr + size;
                let ghost h1 = self.heads@;
                while t < stop
                    invariant
                        stop == fr + size,
                        self.heads@ == h1,
                        self.owner@ == w0,
                        fr < t <= fr + size,
                        fr + size <= n,
                        size == blen(order as int),
                        self.frames@.len() == n,
                        f0.len() == n,
                        forall|j: int| 0 <= j < n ==> #[trigger] self.frames@[j] == (if j == fr {
                            FrameInfo { ty: FrameType::Buddy, order: order as u8 }
                        } else if fr < j < t {
                            FrameInfo { ty: FrameType::BuddyTail, order: f0[j].order }
                        } else {
                            f0[j]
                        }),
                    decreases fr + size - t,
                {
                    let tf = self.frames[t];
                    self.frames.set(t, FrameInfo { ty: FrameType::BuddyTail, order: tf.order });
                    t = t + 1;
                }
                self.owner = Ghost(Seq::new(w0.len(), |j: int| if fr <= j < fr + size { fr as int } else { w0[j] }));
                proof {
                    let f2 = Seq::new(
                        f0.len(),
                        |j: int|
                            if j == fr {
                                FrameInfo { ty: FrameType::Buddy, order: order as u8 }
                            } else if fr < j < fr + blen(order as int) {
                                FrameInfo { ty: FrameType::BuddyTail, order: f0[j].order }
                            } else {
                                f0[j]
                            },
                    );
                    assert(self.frames@ =~= f2);
                    assert(self.lists() =~= l0.update(order as int, l0[order as int].push(fr)));
                    let ol = old(self).lists();
                    let nl = self.lists();
                    assert(block_in_ranges(rs, fr as int, order as int)) by {
                        assert(rs[i as int].0 / 4096 <= fr && fr + blen(order as int) <= rs[i as int].1 / 4096);
                    }
                    assert forall|o: int| 0 <= o < ol.len() implies {
                        &&& (#[trigger] ol[o]).len() <= nl[o].len()
                        &&& nl[o].subrange(0, ol[o].len() as int) == ol[o]
                        &&& forall|p: int| ol[o].len() <= p < nl[o].len() ==> block_in_ranges(rs, #[trigger] nl[o][p] as int, o)
                    } by {
                        if o == order {
                            assert(nl[o] == l0[o].push(fr));
                            assert(nl[o].subrange(0, ol[o].len() as int) =~= l0[o].subrange(0, ol[o].len() as int));
                            assert forall|p: int| ol[o].len() <= p < nl[o].len() implies block_in_ranges(rs, #[trigger] nl[o][p] as int, o) by {
                                if p < l0[o].len() {
                                    assert(nl[o][p] == l0[o][p]);
                                }
                            }
                        } else {
                            assert(nl[o] == l0[o]);
                        }
                    }
                }
                let ghost old_addr = addr;
                addr = addr + (size as u64) * 4096;
                proof {
                    assert(addr / 4096 == old_addr / 4096 + size);
                    assert forall|k: int, j: int| i < k < rs.len() && #[trigger] range_has(rs[k], j) implies self.frames@[j].ty
                        == FrameType::Reserved by {
                        if fr <= j < fr + size {
                            assert(range_has(rs[i as int], j));
                            assert(false);
                        } else {
                            assert(self.frames@[j] == f0[j]);
                        }
                    }
                    assert(self.free_set() =~= old(self).free_set().union(ranges_frames(rs.take(i as int))).union(
                        Set::new(|j: int| start / 4096 <= j < addr / 4096)));
                }
            }
            proof {
                assert(Set::new(|j: int| start / 4096 <= j < addr / 4096) =~= Set::new(|j: int| start / 4096 <= j < end / 4096));
                assert(ranges_frames(rs.take(i + 1)) =~= ranges_frames(rs.take(i as int)).union(
                    Set::new(|j: int| start / 4096 <= j < end / 4096))) by {
                    assert forall|j: int| #[trigger] ranges_frames(rs.take(i + 1)).contains(j) == ranges_frames(rs.take(i as int)).union(
                        Set::new(|j: int| start / 4096 <= j < end / 4096)).contains(j) by {
                        if ranges_frames(rs.take(i + 1)).contains(j) {
                            let k = choose|k: int| 0 <= k < rs.take(i + 1).len() && #[trigger] range_has(rs.take(i + 1)[k], j);
                            if k < i {
                                assert(range_has(rs.take(i as int)[k], j));
                            }
                        }
                        if ranges_frames(rs.take(i as int)).contains(j) {
                            let k = choose|k: int| 0 <= k < rs.take(i as int).len() && #[trigger] range_has(rs.take(i as int)[k], j);
                            assert(range_has(rs.take(i + 1)[k], j));
                        }
                        if start / 4096 <= j < end / 4096 {
                            assert(range_has(rs.take(i + 1)[i as int], j));
                        }
                    }
                }
                assert(self.free_set() =~= old(self).free_set().union(ranges_frames(rs.take(i + 1))));
            }
            i = i + 1;
        }
        proof {
            assert(rs.take(rs.len() as int) =~= rs);
        }
    }
}

/// Giving back a block right after it was allocated leaves free exactly the frames that were
/// free before the allocation.
pub proof fn lemma_free_undoes_alloc(
    before: BuddyAllocator,
    allocated: BuddyAllocator,
    freed: BuddyAllocator,
    addr: u64,
    order: usize,
)
    requires
        block_frames((addr / 4096) as int, order as int).subset_of(before.free_set()),
        allocated.free_set() == before.free_set().difference(block_frames((addr / 4096) as int, order as int)),
        freed.free_set() == allocated.free_set().union(block_frames((addr / 4096) as int, order as int)),
    ensures
        freed.free_set() == before.free_set(),
{
    assert(freed.free_set() =~= before.free_set());
}
} // verus!
