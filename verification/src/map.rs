//! An ordered map over a top-down splay tree.
//!
//! The map owns a binary search tree whose shape changes on every search:
//! each lookup splays the visited key toward the root.  The logical content
//! is modelled by the in-order sequence of key/value pairs, which every
//! operation's contract is stated over.

use vstd::prelude::*;

verus! {

/// Result of a three-way comparison driving a tree search.
#[derive(Clone, Copy, PartialEq, Eq, Structural, Debug)]
pub enum Cmp {
    Less,
    Equal,
    Greater,
}

/// A total order on a key type, with an executable three-way comparison
/// that agrees with the specification-level order.
pub trait TotalOrder: Sized {
    /// The specification-level ordering relation.
    spec fn le(self, other: Self) -> bool;

    proof fn lemma_connex(a: Self, b: Self)
        ensures
            a.le(b) || b.le(a),
    ;

    proof fn lemma_antisymmetric(a: Self, b: Self)
        requires
            a.le(b),
            b.le(a),
        ensures
            a == b,
    ;

    proof fn lemma_transitive(a: Self, b: Self, c: Self)
        requires
            a.le(b),
            b.le(c),
        ensures
            a.le(c),
    ;

    fn compare(&self, other: &Self) -> (c: Cmp)
        ensures
            (match c {
                Cmp::Less => self.le(*other) && *self != *other,
                Cmp::Equal => *self == *other,
                Cmp::Greater => other.le(*self) && *self != *other,
            }),
    ;
}

/// Strict order derived from the total order.
pub open spec fn lt<K: TotalOrder>(a: K, b: K) -> bool {
    a.le(b) && a != b
}

/// The comparison an exact comparator must return.
pub open spec fn spec_cmp<K: TotalOrder>(a: K, b: K) -> Cmp {
    if a == b {
        Cmp::Equal
    } else if a.le(b) {
        Cmp::Less
    } else {
        Cmp::Greater
    }
}

/// The in-order pair sequence has strictly ascending keys.
pub open spec fn sorted_pairs<K: TotalOrder, V>(s: Seq<(K, V)>) -> bool {
    forall|i: int, j: int| 0 <= i < j < s.len() ==> lt(#[trigger] s[i].0, #[trigger] s[j].0)
}

/// Whether some pair of the sequence carries the key `k`.
pub open spec fn has_key<K, V>(s: Seq<(K, V)>, k: K) -> bool {
    exists|i: int| 0 <= i < s.len() && (#[trigger] s[i]).0 == k
}

/// The value stored beside the first occurrence of `k`, if any.
pub open spec fn seq_find<K, V>(s: Seq<(K, V)>, k: K) -> Option<V>
    decreases s.len(),
{
    if s.len() == 0 {
        None
    } else if s[0].0 == k {
        Some(s[0].1)
    } else {
        seq_find(s.drop_first(), k)
    }
}

/// The sequence after writing `k -> v`: an existing pair for `k` is
/// replaced in place, a fresh key is inserted at its sorted position.
pub open spec fn seq_put<K: TotalOrder, V>(s: Seq<(K, V)>, k: K, v: V) -> Seq<(K, V)>
    decreases s.len(),
{
    if s.len() == 0 {
        seq![(k, v)]
    } else if lt(k, s[0].0) {
        seq![(k, v)] + s
    } else if k == s[0].0 {
        seq![(k, v)] + s.drop_first()
    } else {
        seq![s[0]] + seq_put(s.drop_first(), k, v)
    }
}

/// The sequence after deleting the first pair keyed `k`, if any.
pub open spec fn seq_del<K, V>(s: Seq<(K, V)>, k: K) -> Seq<(K, V)>
    decreases s.len(),
{
    if s.len() == 0 {
        Seq::empty()
    } else if s[0].0 == k {
        s.drop_first()
    } else {
        seq![s[0]] + seq_del(s.drop_first(), k)
    }
}

struct Node<K, V> {
    kv: (K, V),
    left: Option<Box<Node<K, V>>>,
    right: Option<Box<Node<K, V>>>,
}

/// In-order flattening of an optional subtree.
spec fn opt_seq<K, V>(n: Option<Box<Node<K, V>>>) -> Seq<(K, V)>
    decreases n,
{
    match n {
        None => Seq::empty(),
        Some(b) => opt_seq(b.left) + seq![b.kv] + opt_seq(b.right),
    }
}

/// A three-way comparator that drives a search through the tree.
/// `res` describes every answer `judge` may give for a pair; `ok` is the
/// precondition under which it may be consulted at all.
trait Comparator<K, V>: Sized {
    spec fn ok(self) -> bool;

    spec fn res(self, p: (K, V), c: Cmp) -> bool;

    fn judge(&self, a: &K, b: &V) -> (c: Cmp)
        requires
            self.ok(),
        ensures
            self.res((*a, *b), c),
    ;
}

/// Exact comparison of a fixed key against each visited pair's key.
struct KeyCmp<'a, K> {
    key: &'a K,
}

impl<'a, K: TotalOrder, V> Comparator<K, V> for KeyCmp<'a, K> {
    spec fn ok(self) -> bool {
        true
    }

    spec fn res(self, p: (K, V), c: Cmp) -> bool {
        c == spec_cmp(*self.key, p.0)
    }

    fn judge(&self, a: &K, _b: &V) -> (c: Cmp) {
        let r = self.key.compare(a);
        proof {
            if let Cmp::Greater = r {
                if self.key.le(*a) {
                    K::lemma_antisymmetric(*self.key, *a);
                }
            }
        }
        r
    }
}

/// A caller-supplied predicate closure, judged only by its `call_ensures`.
struct FnCmp<F> {
    f: F,
}

impl<K, V, F: Fn(&K, &V) -> Cmp> Comparator<K, V> for FnCmp<F> {
    spec fn ok(self) -> bool {
        forall|a: &K, b: &V| call_requires(self.f, (a, b))
    }

    spec fn res(self, p: (K, V), c: Cmp) -> bool {
        call_ensures(self.f, (&p.0, &p.1), c)
    }

    fn judge(&self, a: &K, b: &V) -> (c: Cmp) {
        (self.f)(a, b)
    }
}

/// In-order flattening of the chain of nodes set aside on the lesser side
/// during a descent: each node keeps its left subtree, its right child slot
/// is open.
spec fn ls_flat<K, V>(ls: Seq<Box<Node<K, V>>>) -> Seq<(K, V)>
    decreases ls.len(),
{
    if ls.len() == 0 {
        Seq::empty()
    } else {
        ls_flat(ls.drop_last()) + opt_seq(ls.last().left) + seq![ls.last().kv]
    }
}

/// In-order flattening of the chain set aside on the greater side: each node
/// keeps its right subtree, its left child slot is open.
spec fn rs_flat<K, V>(rs: Seq<Box<Node<K, V>>>) -> Seq<(K, V)>
    decreases rs.len(),
{
    if rs.len() == 0 {
        Seq::empty()
    } else {
        seq![rs.last().kv] + opt_seq(rs.last().right) + rs_flat(rs.drop_last())
    }
}

/// After a splay over the pair sequence `s0`, the new root holds `s0[m]`,
/// its subtrees hold exactly the pairs on either side, and the comparator
/// stopped the descent there: on the root itself with `Equal`, or on a
/// missing child with the neighbouring pair judged the opposite way.
spec fn splay_post<K, V, C: Comparator<K, V>>(f: C, r: Node<K, V>, s0: Seq<(K, V)>, m: int) -> bool {
    &&& 0 <= m < s0.len()
    &&& r.kv == s0[m]
    &&& opt_seq(r.left) == s0.subrange(0, m)
    &&& opt_seq(r.right) == s0.subrange(m + 1, s0.len() as int)
    &&& {
        ||| f.res(s0[m], Cmp::Equal)
        ||| (f.res(s0[m], Cmp::Less) && (m == 0 || f.res(s0[m - 1], Cmp::Greater)))
        ||| (f.res(s0[m], Cmp::Greater) && (m == s0.len() - 1 || f.res(s0[m + 1], Cmp::Less)))
    }
}

/// Splits a concatenation `x + [p] + y` into its parts by position.
proof fn lemma_concat_parts<T>(x: Seq<T>, p: T, y: Seq<T>, s: Seq<T>)
    requires
        s == x + seq![p] + y,
    ensures
        s.len() == x.len() + 1 + y.len(),
        s.subrange(0, x.len() as int) == x,
        s[x.len() as int] == p,
        s.subrange(x.len() + 1 as int, s.len() as int) == y,
        forall|i: int| 0 <= i < x.len() ==> s[i] == x[i],
        forall|i: int| 0 <= i < y.len() ==> s[x.len() + 1 + i] == y[i],
{
    assert(s.subrange(0, x.len() as int) =~= x);
    assert(s.subrange(x.len() + 1 as int, s.len() as int) =~= y);
}

/// Top-down splay driven by an arbitrary three-way comparator.
///
/// The descent peels nodes off into two accumulator chains (`ls` for lesser
/// keys, `rs` for greater ones), rotating a same-direction child up first
/// ("zig-zig"), and grafts both chains back as the subtrees of the node the
/// descent stopped at.  The in-order pair sequence is preserved exactly.
#[verifier::rlimit(100)]
fn splay_with<K, V, C: Comparator<K, V>>(f: &C, t: Box<Node<K, V>>) -> (r: Box<Node<K, V>>)
    requires
        f.ok(),
    ensures
        opt_seq(Some(r)) == opt_seq(Some(t)),
        exists|m: int| splay_post(*f, *r, opt_seq(Some(t)), m),
{
    let ghost s0 = opt_seq(Some(t));
    let mut cur = t;
    let mut ls: Vec<Box<Node<K, V>>> = Vec::new();
    let mut rs: Vec<Box<Node<K, V>>> = Vec::new();

    loop
        invariant
            f.ok(),
            ls_flat(ls@) + opt_seq(Some(cur)) + rs_flat(rs@) == s0,
            ls@.len() > 0 ==> f.res(ls@.last().kv, Cmp::Greater),
            rs@.len() > 0 ==> f.res(rs@.last().kv, Cmp::Less),
        ensures
            ls_flat(ls@) + opt_seq(Some(cur)) + rs_flat(rs@) == s0,
            ls@.len() > 0 ==> f.res(ls@.last().kv, Cmp::Greater),
            rs@.len() > 0 ==> f.res(rs@.last().kv, Cmp::Less),
            ({
                ||| f.res(cur.kv, Cmp::Equal)
                ||| (f.res(cur.kv, Cmp::Less) && cur.left is None)
                ||| (f.res(cur.kv, Cmp::Greater) && cur.right is None)
            }),
        decreases opt_seq(Some(cur)).len(),
    {
        let ghost pre = cur;
        let c = f.judge(&cur.kv.0, &cur.kv.1);
        match c {
            Cmp::Equal => {
                break;
            }
            Cmp::Less => {
                let lo = cur.left.take();
                match lo {
                    None => {
                        break;
                    }
                    Some(mut l) => {
                        let c2 = f.judge(&l.kv.0, &l.kv.1);
                        let descend = match c2 {
                            Cmp::Less => {
                                // zig-zig: rotate `l` above `cur` before peeling
                                let ghost ll = l.left;
                                let ghost lr = l.right;
                                let ghost lkv = l.kv;
                                cur.left = l.right.take();
                                let ghost pv = cur;
                                let prev = cur;
                                l.right = Some(prev);
                                cur = l;
                                proof {
                                    assert(pv.kv == pre.kv && pv.left == lr && pv.right
                                        == pre.right);
                                    assert(cur.right == Some(pv));
                                    assert(opt_seq(cur.right) == opt_seq(lr) + seq![pre.kv]
                                        + opt_seq(pre.right));
                                    assert(opt_seq(pre.left) == opt_seq(ll) + seq![lkv]
                                        + opt_seq(lr));
                                    assert(opt_seq(Some(pre)) == (opt_seq(ll) + seq![lkv]
                                        + opt_seq(lr)) + seq![pre.kv] + opt_seq(pre.right));
                                    assert(opt_seq(Some(cur)) == opt_seq(ll) + seq![lkv]
                                        + (opt_seq(lr) + seq![pre.kv] + opt_seq(pre.right)));
                                    assert(opt_seq(Some(cur)) =~= opt_seq(Some(pre)));
                                    assert(ls_flat(ls@) + opt_seq(Some(cur)) + rs_flat(rs@)
                                        =~= s0);
                                }
                                cur.left.take()
                            }
                            _ => Some(l),
                        };
                        match descend {
                            None => {
                                break;
                            }
                            Some(nxt) => {
                                let ghost rs_old = rs@;
                                let ghost pv2 = cur;
                                proof {
                                    assert(opt_seq(Some(pv2)) == opt_seq(pv2.left) + seq![pv2.kv]
                                        + opt_seq(pv2.right));
                                    assert(opt_seq(pv2.left) =~= Seq::<(K, V)>::empty());
                                    assert(opt_seq(Some(nxt)) + seq![pv2.kv] + opt_seq(pv2.right)
                                        =~= opt_seq(Some(pre)));
                                }
                                let prev = cur;
                                rs.push(prev);
                                proof {
                                    assert(rs@ =~= rs_old.push(pv2));
                                    assert(rs@.drop_last() =~= rs_old);
                                    assert(rs@.last() == pv2);
                                    assert(rs_flat(rs@) == seq![pv2.kv] + opt_seq(pv2.right)
                                        + rs_flat(rs_old));
                                    assert(ls_flat(ls@) + opt_seq(Some(nxt)) + rs_flat(rs@)
                                        =~= s0);
                                }
                                cur = nxt;
                            }
                        }
                    }
                }
            }
            Cmp::Greater => {
                let ro = cur.right.take();
                match ro {
                    None => {
                        break;
                    }
                    Some(mut g) => {
                        let c2 = f.judge(&g.kv.0, &g.kv.1);
                        let descend = match c2 {
                            Cmp::Greater => {
                                // zig-zig, mirrored: rotate `g` above `cur`
                                let ghost gl = g.left;
                                let ghost gr = g.right;
                                let ghost gkv = g.kv;
                                cur.right = g.left.take();
                                let ghost pv = cur;
                                let prev = cur;
                                g.left = Some(prev);
                                cur = g;
                                proof {
                                    assert(pv.kv == pre.kv && pv.right == gl && pv.left
                                        == pre.left);
                                    assert(cur.left == Some(pv));
                                    assert(opt_seq(cur.left) == opt_seq(pre.left) + seq![pre.kv]
                                        + opt_seq(gl));
                                    assert(opt_seq(pre.right) == opt_seq(gl) + seq![gkv]
                                        + opt_seq(gr));
                                    assert(opt_seq(Some(pre)) == opt_seq(pre.left) + seq![pre.kv]
                                        + (opt_seq(gl) + seq![gkv] + opt_seq(gr)));
                                    assert(opt_seq(Some(cur)) == (opt_seq(pre.left) + seq![pre.kv]
                                        + opt_seq(gl)) + seq![gkv] + opt_seq(gr));
                                    assert(opt_seq(Some(cur)) =~= opt_seq(Some(pre)));
                                    assert(ls_flat(ls@) + opt_seq(Some(cur)) + rs_flat(rs@)
                                        =~= s0);
                                }
                                cur.right.take()
                            }
                            _ => Some(g),
                        };
                        match descend {
                            None => {
                                break;
                            }
                            Some(nxt) => {
                                let ghost ls_old = ls@;
                                let ghost pv2 = cur;
                                proof {
                                    assert(opt_seq(Some(pv2)) == opt_seq(pv2.left) + seq![pv2.kv]
                                        + opt_seq(pv2.right));
                                    assert(opt_seq(pv2.right) =~= Seq::<(K, V)>::empty());
                                    assert(opt_seq(pv2.left) + seq![pv2.kv] + opt_seq(Some(nxt))
                                        =~= opt_seq(Some(pre)));
                                }
                                let prev = cur;
                                ls.push(prev);
                                proof {
                                    assert(ls@ =~= ls_old.push(pv2));
                                    assert(ls@.drop_last() =~= ls_old);
                                    assert(ls@.last() == pv2);
                                    assert(ls_flat(ls@) == ls_flat(ls_old) + opt_seq(pv2.left)
                                        + seq![pv2.kv]);
                                    assert(ls_flat(ls@) + opt_seq(Some(nxt)) + rs_flat(rs@)
                                        =~= s0);
                                }
                                cur = nxt;
                            }
                        }
                    }
                }
            }
        }
    }

    // graft the lesser chain back as the left subtree
    let ghost lsflat0 = ls_flat(ls@);
    let ghost rsflat0 = rs_flat(rs@);
    let ghost stopped = *cur;
    proof {
        // the chain flats end (begin) with the judged chain node itself
        if ls@.len() > 0 {
            assert(lsflat0 == ls_flat(ls@.drop_last()) + opt_seq(ls@.last().left) + seq![
                ls@.last().kv,
            ]);
            assert(lsflat0.len() > 0 && lsflat0.last() == ls@.last().kv);
        } else {
            assert(lsflat0.len() == 0);
        }
        if rs@.len() > 0 {
            assert(rsflat0 == seq![rs@.last().kv] + opt_seq(rs@.last().right) + rs_flat(
                rs@.drop_last(),
            ));
            assert(rsflat0.len() > 0 && rsflat0[0] == rs@.last().kv);
        } else {
            assert(rsflat0.len() == 0);
        }
        assert(lsflat0.len() > 0 ==> f.res(lsflat0.last(), Cmp::Greater));
        assert(rsflat0.len() > 0 ==> f.res(rsflat0[0], Cmp::Less));
    }
    let mut acc = cur.left.take();
    let ghost lc = opt_seq(acc);
    loop
        invariant
            ls_flat(ls@) + opt_seq(acc) == lsflat0 + lc,
        ensures
            ls@.len() == 0,
            opt_seq(acc) == lsflat0 + lc,
        decreases ls@.len(),
    {
        match ls.pop() {
            None => {
                break;
            }
            Some(mut p) => {
                let ghost lspre = ls@.push(p);
                p.right = acc;
                acc = Some(p);
                proof {
                    assert(lspre.drop_last() =~= ls@);
                    assert(ls_flat(ls@) + opt_seq(acc) =~= ls_flat(lspre) + opt_seq(p.right));
                }
            }
        }
    }
    cur.left = acc;

    // graft the greater chain back as the right subtree
    let mut acc2 = cur.right.take();
    let ghost rc = opt_seq(acc2);
    loop
        invariant
            opt_seq(acc2) + rs_flat(rs@) == rc + rsflat0,
        ensures
            rs@.len() == 0,
            opt_seq(acc2) == rc + rsflat0,
        decreases rs@.len(),
    {
        match rs.pop() {
            None => {
                break;
            }
            Some(mut q) => {
                let ghost rspre = rs@.push(q);
                q.left = acc2;
                acc2 = Some(q);
                proof {
                    assert(rspre.drop_last() =~= rs@);
                    assert(opt_seq(acc2) + rs_flat(rs@) =~= opt_seq(q.left) + rs_flat(rspre));
                }
            }
        }
    }
    cur.right = acc2;

    proof {
        let m: int = (lsflat0.len() + lc.len()) as int;
        let x = lsflat0 + lc;
        let y = rc + rsflat0;
        assert(s0 == lsflat0 + (lc + seq![stopped.kv] + rc) + rsflat0);
        assert(x + seq![stopped.kv] + y =~= s0);
        lemma_concat_parts(x, stopped.kv, y, s0);
        assert(opt_seq(Some(cur)) == (lsflat0 + lc) + seq![stopped.kv] + (rc + rsflat0));
        assert(opt_seq(Some(cur)) =~= s0);
        assert(opt_seq(cur.left) == x && opt_seq(cur.right) == y);
        if f.res(stopped.kv, Cmp::Less) && stopped.left is None {
            assert(lc.len() == 0);
            if m > 0 {
                assert(s0[m - 1] == x[m - 1]);
                assert(x =~= lsflat0);
                assert(x[m - 1] == lsflat0.last());
            }
            assert(splay_post(*f, *cur, s0, m));
        } else if f.res(stopped.kv, Cmp::Greater) && stopped.right is None {
            assert(rc.len() == 0);
            if m < s0.len() - 1 {
                assert(s0[m + 1] == y[0]);
                assert(y =~= rsflat0);
            }
            assert(splay_post(*f, *cur, s0, m));
        } else {
            assert(f.res(stopped.kv, Cmp::Equal));
            assert(splay_post(*f, *cur, s0, m));
        }
    }
    cur
}

/// Strict order is transitive.
pub proof fn lemma_lt_trans<K: TotalOrder>(a: K, b: K, c: K)
    requires
        lt(a, b),
        lt(b, c),
    ensures
        lt(a, c),
{
    K::lemma_transitive(a, b, c);
    if a == c {
        K::lemma_antisymmetric(a, b);
    }
}

/// Strict order is asymmetric.
pub proof fn lemma_lt_asym<K: TotalOrder>(a: K, b: K)
    requires
        lt(a, b),
    ensures
        !lt(b, a),
{
    if lt(b, a) {
        K::lemma_antisymmetric(a, b);
    }
}

/// In a sorted sequence whose last key is below `k`, every key is below `k`.
proof fn lemma_all_lt_of_last<K: TotalOrder, V>(s: Seq<(K, V)>, k: K)
    requires
        sorted_pairs(s),
        s.len() == 0 || lt(s[s.len() - 1].0, k),
    ensures
        forall|i: int| 0 <= i < s.len() ==> lt((#[trigger] s[i]).0, k),
{
    assert forall|i: int| 0 <= i < s.len() implies lt((#[trigger] s[i]).0, k) by {
        if i < s.len() - 1 {
            lemma_lt_trans(s[i].0, s[s.len() - 1].0, k);
        }
    }
}

/// In a sorted sequence whose first key is above `k`, every key is above `k`.
proof fn lemma_all_gt_of_first<K: TotalOrder, V>(s: Seq<(K, V)>, k: K)
    requires
        sorted_pairs(s),
        s.len() == 0 || lt(k, s[0].0),
    ensures
        forall|i: int| 0 <= i < s.len() ==> lt(k, (#[trigger] s[i]).0),
{
    assert forall|i: int| 0 <= i < s.len() implies lt(k, (#[trigger] s[i]).0) by {
        if i > 0 {
            lemma_lt_trans(k, s[0].0, s[i].0);
        }
    }
}

/// A sorted sequence stays sorted after slicing out a contiguous part.
proof fn lemma_sorted_subrange<K: TotalOrder, V>(s: Seq<(K, V)>, a: int, b: int)
    requires
        sorted_pairs(s),
        0 <= a <= b <= s.len(),
    ensures
        sorted_pairs(s.subrange(a, b)),
{
}

/// Pairs below `p` on the left, above it on the right: the whole is sorted.
proof fn lemma_sorted_mid<K: TotalOrder, V>(x: Seq<(K, V)>, p: (K, V), y: Seq<(K, V)>)
    requires
        sorted_pairs(x),
        sorted_pairs(y),
        forall|i: int| 0 <= i < x.len() ==> lt((#[trigger] x[i]).0, p.0),
        forall|i: int| 0 <= i < y.len() ==> lt(p.0, (#[trigger] y[i]).0),
    ensures
        sorted_pairs(x + seq![p] + y),
{
    let s = x + seq![p] + y;
    assert forall|i: int, j: int| 0 <= i < j < s.len() implies lt(
        (#[trigger] s[i]).0,
        (#[trigger] s[j]).0,
    ) by {
        let n = x.len() as int;
        if i < n && j < n {
        } else if i < n && j == n {
        } else if i < n && j > n {
            lemma_lt_trans(x[i].0, p.0, y[j - n - 1].0);
        } else if i == n && j > n {
        } else {
        }
    }
}

/// Dropping the middle pair of a sorted decomposition keeps it sorted.
proof fn lemma_sorted_drop_mid<K: TotalOrder, V>(x: Seq<(K, V)>, p: (K, V), y: Seq<(K, V)>)
    requires
        sorted_pairs(x + seq![p] + y),
    ensures
        sorted_pairs(x + y),
{
    let s = x + seq![p] + y;
    let t = x + y;
    let n = x.len() as int;
    assert forall|i: int, j: int| 0 <= i < j < t.len() implies lt(
        (#[trigger] t[i]).0,
        (#[trigger] t[j]).0,
    ) by {
        let i2 = if i < n { i } else { i + 1 };
        let j2 = if j < n { j } else { j + 1 };
        assert(t[i] == s[i2] && t[j] == s[j2]);
        assert(lt(s[i2].0, s[j2].0));
    }
}

/// `seq_find` ignores a prefix that misses the key.
proof fn lemma_find_skip<K, V>(x: Seq<(K, V)>, y: Seq<(K, V)>, k: K)
    requires
        forall|i: int| 0 <= i < x.len() ==> (#[trigger] x[i]).0 != k,
    ensures
        seq_find(x + y, k) == seq_find(y, k),
    decreases x.len(),
{
    if x.len() == 0 {
        assert(x + y =~= y);
    } else {
        let s = x + y;
        assert(s[0] == x[0]);
        if s.len() == 0 {
        } else {
            assert(s.drop_first() =~= x.drop_first() + y);
            lemma_find_skip(x.drop_first(), y, k);
        }
    }
}

/// `seq_find` misses entirely when no pair has the key.
proof fn lemma_find_absent<K, V>(s: Seq<(K, V)>, k: K)
    requires
        forall|i: int| 0 <= i < s.len() ==> (#[trigger] s[i]).0 != k,
    ensures
        seq_find(s, k) == None::<V>,
    decreases s.len(),
{
    if s.len() > 0 {
        assert(s.drop_first() =~= s.subrange(1, s.len() as int));
        lemma_find_absent(s.drop_first(), k);
    }
}

/// `seq_find` at a decomposed hit position.
proof fn lemma_find_hit<K, V>(x: Seq<(K, V)>, p: (K, V), y: Seq<(K, V)>)
    requires
        forall|i: int| 0 <= i < x.len() ==> (#[trigger] x[i]).0 != p.0,
    ensures
        seq_find(x + seq![p] + y, p.0) == Some(p.1),
{
    assert(x + seq![p] + y =~= x + (seq![p] + y));
    lemma_find_skip(x, seq![p] + y, p.0);
    let s = seq![p] + y;
    assert(s[0] == p);
}

/// `seq_put` of a fresh key inserts it between the parts.
proof fn lemma_put_fresh<K: TotalOrder, V>(x: Seq<(K, V)>, y: Seq<(K, V)>, k: K, v: V)
    requires
        forall|i: int| 0 <= i < x.len() ==> lt((#[trigger] x[i]).0, k),
        forall|i: int| 0 <= i < y.len() ==> lt(k, (#[trigger] y[i]).0),
    ensures
        seq_put(x + y, k, v) == x + seq![(k, v)] + y,
    decreases x.len(),
{
    let s = x + y;
    if x.len() == 0 {
        assert(s =~= y);
        if y.len() == 0 {
            assert(seq_put(s, k, v) =~= x + seq![(k, v)] + y);
        } else {
            assert(lt(k, s[0].0));
            assert(seq_put(s, k, v) == seq![(k, v)] + s);
            assert(seq![(k, v)] + s =~= x + seq![(k, v)] + y);
        }
    } else {
        assert(s[0] == x[0]);
        lemma_lt_asym(x[0].0, k);
        assert(!lt(k, s[0].0) && s[0].0 != k);
        assert(s.drop_first() =~= x.drop_first() + y);
        lemma_put_fresh(x.drop_first(), y, k, v);
        assert(seq_put(s, k, v) == seq![s[0]] + (x.drop_first() + seq![(k, v)] + y));
        assert(seq![s[0]] + (x.drop_first() + seq![(k, v)] + y) =~= x + seq![(k, v)] + y);
    }
}

/// `seq_put` of a present key replaces its pair in place.
proof fn lemma_put_replace<K: TotalOrder, V>(x: Seq<(K, V)>, p: (K, V), y: Seq<(K, V)>, v: V)
    requires
        forall|i: int| 0 <= i < x.len() ==> lt((#[trigger] x[i]).0, p.0),
    ensures
        seq_put(x + seq![p] + y, p.0, v) == x + seq![(p.0, v)] + y,
    decreases x.len(),
{
    let s = x + seq![p] + y;
    if x.len() == 0 {
        assert(s[0] == p);
        assert(!lt(p.0, s[0].0)) by {
            if lt(p.0, p.0) {
            }
        }
        assert(seq_put(s, p.0, v) == seq![(p.0, v)] + s.drop_first());
        assert(s.drop_first() =~= y);
        assert(seq![(p.0, v)] + y =~= x + seq![(p.0, v)] + y);
    } else {
        assert(s[0] == x[0]);
        lemma_lt_asym(x[0].0, p.0);
        assert(!lt(p.0, s[0].0) && s[0].0 != p.0);
        assert(s.drop_first() =~= x.drop_first() + seq![p] + y);
        lemma_put_replace(x.drop_first(), p, y, v);
        assert(seq_put(s, p.0, v) == seq![s[0]] + (x.drop_first() + seq![(p.0, v)] + y));
        assert(seq![s[0]] + (x.drop_first() + seq![(p.0, v)] + y) =~= x + seq![(p.0, v)] + y);
    }
}

/// `seq_del` of a present key closes the gap.
proof fn lemma_del_hit<K, V>(x: Seq<(K, V)>, p: (K, V), y: Seq<(K, V)>)
    requires
        forall|i: int| 0 <= i < x.len() ==> (#[trigger] x[i]).0 != p.0,
    ensures
        seq_del(x + seq![p] + y, p.0) == x + y,
    decreases x.len(),
{
    let s = x + seq![p] + y;
    if x.len() == 0 {
        assert(s[0] == p);
        assert(s.drop_first() =~= y);
        assert(x + y =~= y);
    } else {
        assert(s[0] == x[0]);
        assert(s.drop_first() =~= x.drop_first() + seq![p] + y);
        lemma_del_hit(x.drop_first(), p, y);
        assert(seq_del(s, p.0) == seq![s[0]] + (x.drop_first() + y));
        assert(seq![s[0]] + (x.drop_first() + y) =~= x + y);
    }
}

/// `seq_del` of an absent key changes nothing.
proof fn lemma_del_absent<K, V>(s: Seq<(K, V)>, k: K)
    requires
        forall|i: int| 0 <= i < s.len() ==> (#[trigger] s[i]).0 != k,
    ensures
        seq_del(s, k) == s,
    decreases s.len(),
{
    if s.len() > 0 {
        assert(s.drop_first() =~= s.subrange(1, s.len() as int));
        lemma_del_absent(s.drop_first(), k);
        assert(seq![s[0]] + s.drop_first() =~= s);
    }
}

/// An ordered map whose tree restructures itself on every search.
pub struct SplayMap<K: TotalOrder, V> {
    root: Option<Box<Node<K, V>>>,
    size: usize,
}

impl<K: TotalOrder, V> SplayMap<K, V> {
    /// The in-order sequence of key/value pairs: the map's logical content.
    pub closed spec fn in_order(self) -> Seq<(K, V)> {
        opt_seq(self.root)
    }

    /// Structural invariant: keys strictly ascend and the cached size is exact.
    pub closed spec fn wf(self) -> bool {
        &&& sorted_pairs(self.in_order())
        &&& self.size == self.in_order().len()
    }

    /// The value stored for `k`, as the contracts speak of it.
    pub open spec fn spec_get(self, k: K) -> Option<V> {
        seq_find(self.in_order(), k)
    }

    /// Creates an empty map.
    pub fn new() -> (m: SplayMap<K, V>)
        ensures
            m.wf(),
            m.in_order() == Seq::<(K, V)>::empty(),
    {
        SplayMap { root: None, size: 0 }
    }

    /// Looks a key up, splaying it (or its closest neighbour) to the root:
    /// even a plain read restructures the tree, which is why it demands
    /// exclusive access.
    pub fn get(&mut self, key: &K) -> (r: Option<&V>)
        requires
            old(self).wf(),
        ensures
            final(self).wf(),
            final(self).in_order() == old(self).in_order(),
            (match r {
                Some(v) => old(self).spec_get(*key) == Some(*v),
                None => old(self).spec_get(*key) is None,
            }),
    {
        let ghost s0 = self.in_order();
        let rt = self.root.take();
        match rt {
            None => None,
            Some(root) => {
                let cl = KeyCmp { key };
                let root = splay_with_key(key, root);
                proof {
                    let m = choose|m: int| splay_post(cl, *root, s0, m);
                    lemma_key_splay_facts(cl, *key, *root, s0, m);
                    let x = s0.subrange(0, m);
                    let y = s0.subrange(m + 1 as int, s0.len() as int);
                    assert(s0 =~= x + seq![s0[m]] + y);
                    if s0[m].0 == *key {
                        lemma_find_hit(x, s0[m], y);
                    } else {
                        assert(forall|i: int| 0 <= i < s0.len() ==> (#[trigger] s0[i]).0 != *key);
                        lemma_find_absent(s0, *key);
                    }
                }
                let c = key.compare(&root.kv.0);
                self.root = Some(root);
                match c {
                    Cmp::Equal => {
                        match &self.root {
                            Some(b) => Some(&b.kv.1),
                            None => {
                                proof {
                                    assert(false);
                                }
                                None
                            }
                        }
                    }
                    _ => None,
                }
            }
        }
    }

    /// Looks a key up and hands out mutable access to its value, splaying
    /// as `get` does.  Whatever the caller writes through the reference is
    /// what the map then stores for the key.
    pub fn get_mut(&mut self, key: &K) -> (r: Option<&mut V>)
        requires
            old(self).wf(),
        ensures
            (match r {
                None => {
                    &&& seq_find(old(self).in_order(), *key) is None
                    &&& final(self).wf()
                    &&& final(self).in_order() == old(self).in_order()
                },
                Some(v) => {
                    &&& seq_find(old(self).in_order(), *key) == Some(*v)
                    &&& final(self).wf()
                    &&& final(self).in_order() == seq_put(old(self).in_order(), *key, *final(v))
                },
            }),
    {
        let ghost s0 = self.in_order();
        let rt = self.root.take();
        match rt {
            None => None,
            Some(root) => {
                let cl = KeyCmp { key };
                let root = splay_with_key(key, root);
                let ghost m: int = choose|m: int| splay_post(cl, *root, s0, m);
                proof {
                    lemma_key_splay_facts(cl, *key, *root, s0, m);
                    assert(s0 =~= s0.subrange(0, m) + seq![s0[m]] + s0.subrange(
                        m + 1 as int,
                        s0.len() as int,
                    ));
                }
                let ghost x = s0.subrange(0, m);
                let ghost y = s0.subrange(m + 1 as int, s0.len() as int);
                let c = key.compare(&root.kv.0);
                self.root = Some(root);
                match c {
                    Cmp::Equal => {
                        match &mut self.root {
                            Some(b) => {
                                let vref = &mut b.kv.1;
                                proof {
                                    lemma_find_at_index(s0, m);
                                    lemma_put_at_index(s0, m, *final(vref));
                                    assert(opt_seq(after_borrow(self).root) == x + seq![
                                        (s0[m].0, *final(vref)),
                                    ] + y);
                                    assert(x + seq![(s0[m].0, *final(vref))] + y =~= s0.update(
                                        m,
                                        (s0[m].0, *final(vref)),
                                    ));
                                }
                                Some(vref)
                            }
                            None => {
                                proof {
                                    assert(false);
                                }
                                None
                            }
                        }
                    }
                    _ => {
                        proof {
                            assert(s0[m].0 != *key);
                            assert(forall|i: int|
                                0 <= i < s0.len() ==> (#[trigger] s0[i]).0 != *key);
                            lemma_find_absent(s0, *key);
                        }
                        None
                    }
                }
            }
        }
    }

    /// Writes `key -> value`.  An existing pair for the key has its value
    /// replaced (and returned); a fresh key is spliced in at the root after
    /// the splay, growing the map by one pair.
    pub fn insert(&mut self, key: K, value: V) -> (prev: Option<V>)
        requires
            old(self).wf(),
            old(self).in_order().len() < usize::MAX,
        ensures
            final(self).wf(),
            final(self).in_order() == seq_put(old(self).in_order(), key, value),
            prev == seq_find(old(self).in_order(), key),
    {
        let ghost s0 = self.in_order();
        let rt = self.root.take();
        match rt {
            None => {
                self.root = Some(Box::new(Node { kv: (key, value), left: None, right: None }));
                self.size = self.size + 1;
                proof {
                    assert(opt_seq(self.root) =~= seq![(key, value)]);
                    assert(seq_put(s0, key, value) =~= seq![(key, value)]);
                }
                None
            }
            Some(root) => {
                let cl = KeyCmp { key: &key };
                let mut root = splay_with_key(&key, root);
                let ghost m: int = choose|m: int| splay_post(cl, *root, s0, m);
                proof {
                    lemma_key_splay_facts(cl, key, *root, s0, m);
                    assert(s0 =~= s0.subrange(0, m) + seq![s0[m]] + s0.subrange(
                        m + 1 as int,
                        s0.len() as int,
                    ));
                }
                let ghost x = s0.subrange(0, m);
                let ghost y = s0.subrange(m + 1 as int, s0.len() as int);
                let c = key.compare(&root.kv.0);
                match c {
                    Cmp::Equal => {
                        let mut pair = (key, value);
                        core::mem::swap(&mut root.kv, &mut pair);
                        let prev_value = pair.1;
                        proof {
                            lemma_find_hit(x, s0[m], y);
                            lemma_put_replace(x, s0[m], y, value);
                            lemma_sorted_subrange(s0, 0, m);
                            lemma_sorted_subrange(s0, m + 1 as int, s0.len() as int);
                            lemma_sorted_mid(x, (key, value), y);
                        }
                        self.root = Some(root);
                        proof {
                            assert(self.in_order() == x + seq![(key, value)] + y);
                        }
                        Some(prev_value)
                    }
                    Cmp::Less => {
                        let left = root.left.take();
                        let ghost rg = root;
                        let nr = Box::new(Node { kv: (key, value), left, right: Some(root) });
                        let ghost nrg = nr;
                        self.root = Some(nr);
                        self.size = self.size + 1;
                        proof {
                            assert(forall|i: int|
                                0 <= i < s0.len() ==> (#[trigger] s0[i]).0 != key);
                            lemma_find_absent(s0, key);
                            let yy = seq![s0[m]] + y;
                            assert(self.root == Some(nrg));
                            assert(opt_seq(Some(nrg)) == opt_seq(nrg.left) + seq![nrg.kv]
                                + opt_seq(nrg.right));
                            assert(nrg.right == Some(rg));
                            assert(opt_seq(Some(rg)) == opt_seq(rg.left) + seq![rg.kv]
                                + opt_seq(rg.right));
                            assert(opt_seq(Some(rg)) =~= yy);
                            assert(self.in_order() == x + seq![(key, value)] + yy);
                            assert(x + yy =~= s0);
                            lemma_put_fresh(x, yy, key, value);
                            lemma_sorted_subrange(s0, 0, m);
                            lemma_sorted_subrange(s0, m as int, s0.len() as int);
                            assert(yy =~= s0.subrange(m as int, s0.len() as int));
                            lemma_all_gt_of_first(yy, key);
                            lemma_sorted_mid(x, (key, value), yy);
                        }
                        None
                    }
                    Cmp::Greater => {
                        let right = root.right.take();
                        let ghost rg = root;
                        let nr = Box::new(Node { kv: (key, value), left: Some(root), right });
                        let ghost nrg = nr;
                        self.root = Some(nr);
                        self.size = self.size + 1;
                        proof {
                            assert(forall|i: int|
                                0 <= i < s0.len() ==> (#[trigger] s0[i]).0 != key);
                            lemma_find_absent(s0, key);
                            let xx = x + seq![s0[m]];
                            assert(self.root == Some(nrg));
                            assert(opt_seq(Some(nrg)) == opt_seq(nrg.left) + seq![nrg.kv]
                                + opt_seq(nrg.right));
                            assert(nrg.left == Some(rg));
                            assert(opt_seq(Some(rg)) == opt_seq(rg.left) + seq![rg.kv]
                                + opt_seq(rg.right));
                            assert(opt_seq(rg.right) == Seq::<(K, V)>::empty());
                            assert(opt_seq(Some(rg)) =~= xx);
                            assert(self.in_order() == xx + seq![(key, value)] + y);
                            assert(xx + y =~= s0);
                            lemma_put_fresh(xx, y, key, value);
                            lemma_sorted_subrange(s0, 0, m + 1 as int);
                            lemma_sorted_subrange(s0, m + 1 as int, s0.len() as int);
                            assert(xx =~= s0.subrange(0, m + 1 as int));
                            assert(xx.len() > 0 && xx[xx.len() - 1] == s0[m]);
                            lemma_all_lt_of_last(xx, key);
                            lemma_sorted_mid(xx, (key, value), y);
                        }
                        None
                    }
                }
            }
        }
    }

    /// Removes the pair for `key`, if present, and returns its value.
    /// The key is splayed to the root, the root is taken out, and the two
    /// subtrees are joined by splaying the left subtree's maximum up.
    pub fn remove(&mut self, key: &K) -> (r: Option<V>)
        requires
            old(self).wf(),
        ensures
            final(self).wf(),
            final(self).in_order() == seq_del(old(self).in_order(), *key),
            r == seq_find(old(self).in_order(), *key),
    {
        let ghost s0 = self.in_order();
        let rt = self.root.take();
        match rt {
            None => None,
            Some(root) => {
                let cl = KeyCmp { key };
                let root = splay_with_key(key, root);
                let ghost m: int = choose|m: int| splay_post(cl, *root, s0, m);
                proof {
                    lemma_key_splay_facts(cl, *key, *root, s0, m);
                    assert(s0 =~= s0.subrange(0, m) + seq![s0[m]] + s0.subrange(
                        m + 1 as int,
                        s0.len() as int,
                    ));
                }
                let ghost x = s0.subrange(0, m);
                let ghost y = s0.subrange(m + 1 as int, s0.len() as int);
                let c = key.compare(&root.kv.0);
                match c {
                    Cmp::Equal => {
                        proof {
                            lemma_find_hit(x, s0[m], y);
                            lemma_del_hit(x, s0[m], y);
                            lemma_sorted_drop_mid(x, s0[m], y);
                        }
                        let bn = *root;
                        let Node { kv, left, right } = bn;
                        let value = kv.1;
                        match left {
                            None => {
                                self.root = right;
                                proof {
                                    assert(x.len() == 0);
                                    assert(self.in_order() =~= x + y);
                                }
                            }
                            Some(lnode) => {
                                proof {
                                    lemma_sorted_subrange(s0, 0, m);
                                }
                                let mut lroot = splay_with(&cl, lnode);
                                proof {
                                    let m2: int = choose|m2: int|
                                        splay_post(cl, *lroot, x, m2);
                                    lemma_key_splay_facts(cl, *key, *lroot, x, m2);
                                    // every key of the left part is below `key`,
                                    // so the splay must have stopped `Greater`
                                    // with nothing to its right
                                    assert(lt(x[m2].0, *key));
                                    assert(spec_cmp(*key, x[m2].0) == Cmp::Greater) by {
                                        if key.le(x[m2].0) {
                                            K::lemma_antisymmetric(*key, x[m2].0);
                                        }
                                    }
                                    if m2 < x.len() - 1 {
                                        assert(cl.res(x[m2 + 1], Cmp::Less));
                                        assert(spec_cmp(*key, x[m2 + 1].0) == Cmp::Less);
                                        assert(lt(*key, x[m2 + 1].0));
                                        lemma_lt_asym(x[m2 + 1].0, *key);
                                        assert(false);
                                    }
                                    assert(opt_seq(lroot.right) == x.subrange(
                                        x.len() as int,
                                        x.len() as int,
                                    ));
                                    assert(opt_seq(lroot.right).len() == 0);
                                    if let Some(b) = lroot.right {
                                        assert(opt_seq(Some(b)) == opt_seq(b.left) + seq![b.kv]
                                            + opt_seq(b.right));
                                        assert(false);
                                    }
                                    assert(x =~= x.subrange(0, x.len() - 1) + seq![
                                        x[x.len() - 1],
                                    ] + x.subrange(x.len() as int, x.len() as int));
                                }
                                lroot.right = right;
                                self.root = Some(lroot);
                                proof {
                                    assert(self.in_order() =~= x + y);
                                }
                            }
                        }
                        self.size = self.size - 1;
                        Some(value)
                    }
                    _ => {
                        self.root = Some(root);
                        proof {
                            assert(s0[m].0 != *key);
                            assert(forall|i: int|
                                0 <= i < s0.len() ==> (#[trigger] s0[i]).0 != *key);
                            lemma_find_absent(s0, *key);
                            lemma_del_absent(s0, *key);
                        }
                        None
                    }
                }
            }
        }
    }
}

/// What the predicate closure `f` may answer for the pair `p`: the
/// vocabulary the predicate-driven searches state their contracts in.
pub open spec fn judged_by<K, V, F: Fn(&K, &V) -> Cmp>(f: F, p: (K, V), c: Cmp) -> bool {
    call_ensures(f, (&p.0, &p.1), c)
}

/// The predicate `f` behaves on `s` like an interval search: pairs before
/// `lo` may only be judged `Greater`, pairs in `[lo, hi)` only `Equal`, and
/// pairs from `hi` on only `Less`.
pub open spec fn cut_at<K, V, F: Fn(&K, &V) -> Cmp>(f: F, s: Seq<(K, V)>, lo: int, hi: int) -> bool {
    &&& 0 <= lo <= hi <= s.len()
    &&& forall|i: int, c: Cmp|
        0 <= i < s.len() && #[trigger] judged_by(f, s[i], c) ==> {
            &&& (i < lo ==> c == Cmp::Greater)
            &&& (lo <= i < hi ==> c == Cmp::Equal)
            &&& (hi <= i ==> c == Cmp::Less)
        }
}

/// Splays with the exact comparison against `key`: the classic lookup form
/// of the top-down splay.
fn splay_with_key<K: TotalOrder, V>(key: &K, t: Box<Node<K, V>>) -> (r: Box<Node<K, V>>)
    ensures
        opt_seq(Some(r)) == opt_seq(Some(t)),
        exists|m: int| splay_post(KeyCmp { key }, *r, opt_seq(Some(t)), m),
{
    splay_with(&KeyCmp { key }, t)
}

impl<K: TotalOrder, V> SplayMap<K, V> {
    /// Generalized search: the predicate drives the splay in place of a key
    /// comparison.  Returns the root pair if the predicate judges it `Equal`
    /// after the splay.  When the predicate partitions the map like an
    /// interval search (`cut_at`), a `None` answer is conclusive: no pair is
    /// judged `Equal`.
    pub fn get_with_mut<F: Fn(&K, &V) -> Cmp>(&mut self, f: F) -> (r: Option<(K, V)>) where
        K: Copy,
        V: Copy,

        requires
            old(self).wf(),
            forall|a: &K, b: &V| call_requires(f, (a, b)),
        ensures
            final(self).wf(),
            final(self).in_order() == old(self).in_order(),
            (match r {
                Some(p) => {
                    &&& exists|j: int|
                        0 <= j < old(self).in_order().len() && old(self).in_order()[j] == p
                    &&& seq_find(old(self).in_order(), p.0) == Some(p.1)
                    &&& judged_by(f, p, Cmp::Equal)
                },
                None => forall|lo: int, hi: int|
                    cut_at(f, old(self).in_order(), lo, hi) ==> lo >= hi,
            }),
    {
        let ghost s0 = self.in_order();
        let rt = self.root.take();
        match rt {
            None => None,
            Some(root) => {
                let cmp = FnCmp { f };
                let root = splay_with(&cmp, root);
                let c = cmp.judge(&root.kv.0, &root.kv.1);
                let ghost m: int = choose|m: int| splay_post(cmp, *root, s0, m);
                proof {
                    assert(splay_post(cmp, *root, s0, m));
                    assert(s0 =~= s0.subrange(0, m) + seq![s0[m]] + s0.subrange(
                        m + 1 as int,
                        s0.len() as int,
                    ));
                }
                let r = match c {
                    Cmp::Equal => {
                        proof {
                            let x = s0.subrange(0, m);
                            let y = s0.subrange(m + 1 as int, s0.len() as int);
                            assert forall|i: int| 0 <= i < x.len() implies (#[trigger] x[i]).0
                                != s0[m].0 by {
                                assert(lt(s0[i].0, s0[m].0));
                            }
                            lemma_find_hit(x, s0[m], y);
                        }
                        Some((root.kv.0, root.kv.1))
                    }
                    _ => {
                        proof {
                            assert forall|lo: int, hi: int| cut_at(f, s0, lo, hi) implies lo
                                >= hi by {
                                assert(judged_by(f, s0[m], c));
                                if cmp.res(s0[m], Cmp::Equal) {
                                    assert(judged_by(f, s0[m], Cmp::Equal));
                                } else if cmp.res(s0[m], Cmp::Less) && (m == 0 || cmp.res(
                                    s0[m - 1],
                                    Cmp::Greater,
                                )) {
                                    assert(judged_by(f, s0[m], Cmp::Less));
                                    if m > 0 {
                                        assert(judged_by(f, s0[m - 1], Cmp::Greater));
                                    }
                                } else {
                                    assert(judged_by(f, s0[m], Cmp::Greater));
                                    if m < s0.len() - 1 {
                                        assert(judged_by(f, s0[m + 1], Cmp::Less));
                                    }
                                }
                            }
                        }
                        None
                    }
                };
                self.root = Some(root);
                r
            }
        }
    }

    /// Read-only search for the lowest-keyed pair the predicate does not
    /// judge `Greater`.  The tree is not restructured.
    pub fn lower_bound_with<F: Fn(&K, &V) -> Cmp>(&self, f: F) -> (r: Option<&(K, V)>)
        requires
            self.wf(),
            forall|a: &K, b: &V| call_requires(f, (a, b)),
        ensures
            (match r {
                Some(p) => {
                    &&& exists|j: int|
                        {
                            &&& 0 <= j < self.in_order().len()
                            &&& self.in_order()[j] == *p
                            &&& forall|i: int|
                                0 <= i < j ==> judged_by(
                                    f,
                                    #[trigger] self.in_order()[i],
                                    Cmp::Greater,
                                )
                        }
                    &&& (judged_by(f, *p, Cmp::Less) || judged_by(f, *p, Cmp::Equal))
                },
                None => forall|i: int|
                    0 <= i < self.in_order().len() ==> judged_by(
                        f,
                        #[trigger] self.in_order()[i],
                        Cmp::Greater,
                    ),
            }),
    {
        match &self.root {
            None => None,
            Some(b) => {
                let cmp = FnCmp { f };
                let r = lb_node(&cmp, &**b);
                proof {
                    assert(self.in_order() == node_seq(**b));
                }
                r
            }
        }
    }
}

/// Length of the leftmost spine: the measure the iterator's rotations lower.
spec fn left_depth<K, V>(n: Option<Box<Node<K, V>>>) -> nat
    decreases n,
{
    match n {
        None => 0,
        Some(b) => 1 + left_depth(b.left),
    }
}

/// Mirror measure for backward iteration.
spec fn right_depth<K, V>(n: Option<Box<Node<K, V>>>) -> nat
    decreases n,
{
    match n {
        None => 0,
        Some(b) => 1 + right_depth(b.right),
    }
}

/// A consuming in-order iterator over a splay tree.  Each step rotates the
/// in-order first (or last) node to the top by local child reattachments,
/// without recursion or an explicit stack, and hands its pair out.  Both
/// directions may be interleaved; `remaining` counts the pairs still held.
pub struct IntoIter<K: TotalOrder, V> {
    cur: Option<Box<Node<K, V>>>,
    remaining: usize,
}

impl<K: TotalOrder, V> IntoIter<K, V> {
    /// The pairs not yet handed out, in ascending key order.
    pub closed spec fn seq(self) -> Seq<(K, V)> {
        opt_seq(self.cur)
    }

    /// Keys still ascend and the remaining count is exact.
    pub closed spec fn wf(self) -> bool {
        &&& sorted_pairs(self.seq())
        &&& self.remaining == self.seq().len()
    }

    /// Exact count of the pairs left, as a size hint.
    pub fn size_hint(&self) -> (r: (usize, Option<usize>))
        requires
            self.wf(),
        ensures
            r.0 == self.seq().len(),
            r.1 == Some(r.0),
    {
        (self.remaining, Some(self.remaining))
    }

    /// Takes the pair with the lowest key, rotating it up first.
    pub fn next(&mut self) -> (r: Option<(K, V)>)
        requires
            old(self).wf(),
        ensures
            final(self).wf(),
            (match r {
                None => old(self).seq().len() == 0 && final(self).seq() == old(self).seq(),
                Some(p) => {
                    &&& old(self).seq().len() > 0
                    &&& p == old(self).seq()[0]
                    &&& final(self).seq() == old(self).seq().drop_first()
                },
            }),
    {
        let ghost s0 = self.seq();
        let cur0 = self.cur.take();
        match cur0 {
            None => None,
            Some(mut cur) => {
                loop
                    invariant
                        opt_seq(Some(cur)) == s0,
                    ensures
                        opt_seq(Some(cur)) == s0,
                        cur.left is None,
                    decreases left_depth(Some(cur)),
                {
                    let ghost pre = cur;
                    let lo = cur.left.take();
                    match lo {
                        None => {
                            break;
                        }
                        Some(mut l) => {
                            let ghost ll = l.left;
                            let ghost lr = l.right;
                            let ghost lkv = l.kv;
                            cur.left = l.right.take();
                            let ghost pv = cur;
                            let prev = cur;
                            l.right = Some(prev);
                            cur = l;
                            proof {
                                assert(pv.kv == pre.kv && pv.left == lr && pv.right == pre.right);
                                assert(cur.right == Some(pv));
                                assert(opt_seq(cur.right) == opt_seq(lr) + seq![pre.kv]
                                    + opt_seq(pre.right));
                                assert(opt_seq(pre.left) == opt_seq(ll) + seq![lkv] + opt_seq(lr));
                                assert(opt_seq(Some(pre)) == (opt_seq(ll) + seq![lkv] + opt_seq(lr))
                                    + seq![pre.kv] + opt_seq(pre.right));
                                assert(opt_seq(Some(cur)) == opt_seq(ll) + seq![lkv] + (opt_seq(lr)
                                    + seq![pre.kv] + opt_seq(pre.right)));
                                assert(opt_seq(Some(cur)) =~= opt_seq(Some(pre)));
                                assert(left_depth(Some(cur)) == 1 + left_depth(ll));
                                assert(left_depth(pre.left) == 1 + left_depth(ll));
                                assert(left_depth(Some(pre)) == 1 + left_depth(pre.left));
                                assert(left_depth(Some(cur)) < left_depth(Some(pre)));
                            }
                        }
                    }
                }
                proof {
                    assert(opt_seq(Some(cur)) == opt_seq(cur.left) + seq![cur.kv] + opt_seq(
                        cur.right,
                    ));
                    assert(opt_seq(cur.left).len() == 0);
                    assert(s0[0] == cur.kv);
                    assert(s0.drop_first() =~= opt_seq(cur.right));
                    lemma_sorted_subrange(s0, 1, s0.len() as int);
                }
                self.cur = cur.right.take();
                let bn = *cur;
                let Node { kv, .. } = bn;
                self.remaining = self.remaining - 1;
                Some(kv)
            }
        }
    }

    /// Takes the pair with the highest key, rotating it up first.
    pub fn next_back(&mut self) -> (r: Option<(K, V)>)
        requires
            old(self).wf(),
        ensures
            final(self).wf(),
            (match r {
                None => old(self).seq().len() == 0 && final(self).seq() == old(self).seq(),
                Some(p) => {
                    &&& old(self).seq().len() > 0
                    &&& p == old(self).seq().last()
                    &&& final(self).seq() == old(self).seq().drop_last()
                },
            }),
    {
        let ghost s0 = self.seq();
        let cur0 = self.cur.take();
        match cur0 {
            None => None,
            Some(mut cur) => {
                loop
                    invariant
                        opt_seq(Some(cur)) == s0,
                    ensures
                        opt_seq(Some(cur)) == s0,
                        cur.right is None,
                    decreases right_depth(Some(cur)),
                {
                    let ghost pre = cur;
                    let ro = cur.right.take();
                    match ro {
                        None => {
                            break;
                        }
                        Some(mut g) => {
                            let ghost gl = g.left;
                            let ghost gr = g.right;
                            let ghost gkv = g.kv;
                            cur.right = g.left.take();
                            let ghost pv = cur;
                            let prev = cur;
                            g.left = Some(prev);
                            cur = g;
                            proof {
                                assert(pv.kv == pre.kv && pv.right == gl && pv.left == pre.left);
                                assert(cur.left == Some(pv));
                                assert(opt_seq(cur.left) == opt_seq(pre.left) + seq![pre.kv]
                                    + opt_seq(gl));
                                assert(opt_seq(pre.right) == opt_seq(gl) + seq![gkv] + opt_seq(gr));
                                assert(opt_seq(Some(pre)) == opt_seq(pre.left) + seq![pre.kv]
                                    + (opt_seq(gl) + seq![gkv] + opt_seq(gr)));
                                assert(opt_seq(Some(cur)) == (opt_seq(pre.left) + seq![pre.kv]
                                    + opt_seq(gl)) + seq![gkv] + opt_seq(gr));
                                assert(opt_seq(Some(cur)) =~= opt_seq(Some(pre)));
                                assert(right_depth(Some(cur)) == 1 + right_depth(gr));
                                assert(right_depth(pre.right) == 1 + right_depth(gr));
                                assert(right_depth(Some(pre)) == 1 + right_depth(pre.right));
                                assert(right_depth(Some(cur)) < right_depth(Some(pre)));
                            }
                        }
                    }
                }
                proof {
                    assert(opt_seq(Some(cur)) == opt_seq(cur.left) + seq![cur.kv] + opt_seq(
                        cur.right,
                    ));
                    assert(opt_seq(cur.right).len() == 0);
                    assert(s0.last() == cur.kv);
                    assert(s0.drop_last() =~= opt_seq(cur.left));
                    lemma_sorted_subrange(s0, 0, s0.len() - 1);
                }
                self.cur = cur.left.take();
                let bn = *cur;
                let Node { kv, .. } = bn;
                self.remaining = self.remaining - 1;
                Some(kv)
            }
        }
    }
}

impl<K: TotalOrder, V> SplayMap<K, V> {
    /// Moves the whole content into a consuming iterator.
    pub fn into_iter(self) -> (it: IntoIter<K, V>)
        requires
            self.wf(),
        ensures
            it.wf(),
            it.seq() == self.in_order(),
    {
        let SplayMap { root, size } = self;
        IntoIter { cur: root, remaining: size }
    }

    /// Empties the map by draining it through the rotating iterator, so the
    /// work is bounded by the tree size with no recursion-depth growth.
    pub fn clear(&mut self)
        requires
            old(self).wf(),
        ensures
            final(self).wf(),
            final(self).in_order() == Seq::<(K, V)>::empty(),
            forall|k: K| seq_find(final(self).in_order(), k) is None,
    {
        let root = self.root.take();
        let size = self.size;
        let mut it = IntoIter { cur: root, remaining: size };
        loop
            invariant
                it.wf(),
            ensures
                it.seq().len() == 0,
            decreases it.seq().len(),
        {
            match it.next() {
                None => {
                    break;
                }
                Some(_) => {}
            }
        }
        self.size = 0;
    }
}

impl<K: TotalOrder, V> Default for SplayMap<K, V> {
    /// An empty map.
    fn default() -> (m: Self)
        ensures
            m.wf(),
            m.in_order() == Seq::<(K, V)>::empty(),
    {
        SplayMap::new()
    }
}

/// In a sorted sequence, looking a key up at its index yields its value.
pub proof fn lemma_find_at_index<K: TotalOrder, V>(s: Seq<(K, V)>, i: int)
    requires
        sorted_pairs(s),
        0 <= i < s.len(),
    ensures
        seq_find(s, s[i].0) == Some(s[i].1),
{
    let x = s.subrange(0, i);
    let y = s.subrange(i + 1 as int, s.len() as int);
    assert(s =~= x + seq![s[i]] + y);
    assert forall|j: int| 0 <= j < x.len() implies (#[trigger] x[j]).0 != s[i].0 by {
        assert(lt(s[j].0, s[i].0));
    }
    lemma_find_hit(x, s[i], y);
}

/// In a sorted sequence, writing to an existing key replaces its pair.
pub proof fn lemma_put_at_index<K: TotalOrder, V>(s: Seq<(K, V)>, i: int, v: V)
    requires
        sorted_pairs(s),
        0 <= i < s.len(),
    ensures
        seq_put(s, s[i].0, v) == s.update(i, (s[i].0, v)),
        sorted_pairs(s.update(i, (s[i].0, v))),
        s.update(i, (s[i].0, v)).len() == s.len(),
{
    let x = s.subrange(0, i);
    let y = s.subrange(i + 1 as int, s.len() as int);
    assert(s =~= x + seq![s[i]] + y);
    assert forall|j: int| 0 <= j < x.len() implies lt((#[trigger] x[j]).0, s[i].0) by {
        assert(lt(s[j].0, s[i].0));
    }
    lemma_put_replace(x, s[i], y, v);
    assert(x + seq![(s[i].0, v)] + y =~= s.update(i, (s[i].0, v)));
    let t = s.update(i, (s[i].0, v));
    assert forall|a: int, b: int| 0 <= a < b < t.len() implies lt(
        (#[trigger] t[a]).0,
        (#[trigger] t[b]).0,
    ) by {
        assert(t[a].0 == s[a].0 && t[b].0 == s[b].0);
    }
}

/// In a sorted sequence, writing a fresh key splices its pair in at the
/// position `i` where it belongs.
pub proof fn lemma_put_fresh_at<K: TotalOrder, V>(s: Seq<(K, V)>, i: int, k: K, v: V)
    requires
        sorted_pairs(s),
        0 <= i <= s.len(),
        forall|j: int| 0 <= j < i ==> lt((#[trigger] s[j]).0, k),
        forall|j: int| i <= j < s.len() ==> lt(k, (#[trigger] s[j]).0),
    ensures
        seq_put(s, k, v) == s.subrange(0, i) + seq![(k, v)] + s.subrange(i, s.len() as int),
        sorted_pairs(s.subrange(0, i) + seq![(k, v)] + s.subrange(i, s.len() as int)),
        seq_find(s, k) == None::<V>,
{
    let x = s.subrange(0, i);
    let y = s.subrange(i, s.len() as int);
    assert(s =~= x + y);
    lemma_put_fresh(x, y, k, v);
    lemma_sorted_subrange(s, 0, i);
    lemma_sorted_subrange(s, i, s.len() as int);
    lemma_sorted_mid(x, (k, v), y);
    assert forall|j: int| 0 <= j < s.len() implies (#[trigger] s[j]).0 != k by {
        if j < i {
            assert(lt(s[j].0, k));
        } else {
            assert(lt(k, s[j].0));
        }
    }
    lemma_find_absent(s, k);
}

/// In-order pair sequence of a single node.
spec fn node_seq<K, V>(n: Node<K, V>) -> Seq<(K, V)> {
    opt_seq(n.left) + seq![n.kv] + opt_seq(n.right)
}

/// Recursive lowest-match search: try the left subtree, then this node,
/// then the right subtree, so the returned pair is the in-order first one
/// not judged `Greater`.
fn lb_node<'a, K, V, C: Comparator<K, V>>(cmp: &C, n: &'a Node<K, V>) -> (r: Option<&'a (K, V)>)
    requires
        cmp.ok(),
    ensures
        (match r {
            Some(p) => {
                &&& exists|j: int|
                    {
                        &&& 0 <= j < node_seq(*n).len()
                        &&& node_seq(*n)[j] == *p
                        &&& forall|i: int|
                            0 <= i < j ==> cmp.res(#[trigger] node_seq(*n)[i], Cmp::Greater)
                    }
                &&& (cmp.res(*p, Cmp::Less) || cmp.res(*p, Cmp::Equal))
            },
            None => forall|i: int|
                0 <= i < node_seq(*n).len() ==> cmp.res(#[trigger] node_seq(*n)[i], Cmp::Greater),
        }),
    decreases n,
{
    let ghost s = node_seq(*n);
    let ghost nl = opt_seq(n.left);
    let ghost nr = opt_seq(n.right);
    proof {
        lemma_concat_parts(nl, n.kv, nr, s);
    }
    match &n.left {
        Some(l) => {
            let r0 = lb_node(cmp, &**l);
            proof {
                assert(opt_seq(n.left) == node_seq(**l));
            }
            if let Some(p) = r0 {
                proof {
                    let j = choose|j: int|
                        {
                            &&& 0 <= j < node_seq(**l).len()
                            &&& node_seq(**l)[j] == *p
                            &&& forall|i: int|
                                0 <= i < j ==> cmp.res(#[trigger] node_seq(**l)[i], Cmp::Greater)
                        };
                    assert(s[j] == *p);
                    assert(forall|i: int| 0 <= i < j ==> cmp.res(#[trigger] s[i], Cmp::Greater));
                }
                return Some(p);
            }
        }
        None => {}
    }
    let c = cmp.judge(&n.kv.0, &n.kv.1);
    let hit = match c {
        Cmp::Less => true,
        Cmp::Equal => true,
        Cmp::Greater => false,
    };
    if hit {
        proof {
            let j = nl.len() as int;
            assert(s[j] == n.kv);
            assert(forall|i: int| 0 <= i < j ==> cmp.res(#[trigger] s[i], Cmp::Greater));
        }
        return Some(&n.kv);
    }
    match &n.right {
        Some(rt) => {
            let r1 = lb_node(cmp, &**rt);
            proof {
                assert(opt_seq(n.right) == node_seq(**rt));
            }
            match r1 {
                Some(p) => {
                    proof {
                        let j = choose|j: int|
                            {
                                &&& 0 <= j < node_seq(**rt).len()
                                &&& node_seq(**rt)[j] == *p
                                &&& forall|i: int|
                                    0 <= i < j ==> cmp.res(
                                        #[trigger] node_seq(**rt)[i],
                                        Cmp::Greater,
                                    )
                            };
                        let j2 = nl.len() + 1 + j;
                        assert(s[j2] == node_seq(**rt)[j]);
                        assert forall|i: int| 0 <= i < j2 implies cmp.res(
                            #[trigger] s[i],
                            Cmp::Greater,
                        ) by {
                            if i < nl.len() {
                                assert(s[i] == nl[i]);
                            } else if i == nl.len() {
                                assert(s[i] == n.kv);
                            } else {
                                assert(s[i] == node_seq(**rt)[i - nl.len() - 1]);
                            }
                        }
                    }
                    Some(p)
                }
                None => {
                    proof {
                        assert forall|i: int| 0 <= i < s.len() implies cmp.res(
                            #[trigger] s[i],
                            Cmp::Greater,
                        ) by {
                            if i < nl.len() {
                                assert(s[i] == nl[i]);
                            } else if i == nl.len() {
                                assert(s[i] == n.kv);
                            } else {
                                assert(s[i] == node_seq(**rt)[i - nl.len() - 1]);
                            }
                        }
                    }
                    None
                }
            }
        }
        None => {
            proof {
                assert(nr.len() == 0);
                assert forall|i: int| 0 <= i < s.len() implies cmp.res(
                    #[trigger] s[i],
                    Cmp::Greater,
                ) by {
                    if i < nl.len() {
                        assert(s[i] == nl[i]);
                    } else {
                        assert(s[i] == n.kv);
                    }
                }
            }
            None
        }
    }
}

/// For a splay driven by an exact comparator against the key `k`, the stop
/// facts pin the root down: everything left of the root's position is below
/// `k`, everything right of it is above, and the root carries `k` itself
/// whenever `k` is present at all.
proof fn lemma_key_splay_facts<K: TotalOrder, V, C: Comparator<K, V>>(
    f: C,
    k: K,
    r: Node<K, V>,
    s0: Seq<(K, V)>,
    m: int,
)
    requires
        sorted_pairs(s0),
        splay_post(f, r, s0, m),
        forall|p: (K, V), c: Cmp| f.res(p, c) ==> c == spec_cmp(k, p.0),
    ensures
        0 <= m < s0.len(),
        r.kv == s0[m],
        opt_seq(r.left) == s0.subrange(0, m),
        opt_seq(r.right) == s0.subrange(m + 1 as int, s0.len() as int),
        forall|i: int| 0 <= i < m ==> lt((#[trigger] s0[i]).0, k),
        forall|i: int| m < i < s0.len() ==> lt(k, (#[trigger] s0[i]).0),
        s0[m].0 != k ==> forall|i: int| 0 <= i < s0.len() ==> (#[trigger] s0[i]).0 != k,
{
    if f.res(s0[m], Cmp::Equal) {
        assert(spec_cmp(k, s0[m].0) == Cmp::Equal);
        assert(s0[m].0 == k);
        assert forall|i: int| 0 <= i < m implies lt((#[trigger] s0[i]).0, k) by {}
        assert forall|i: int| m < i < s0.len() implies lt(k, (#[trigger] s0[i]).0) by {}
    } else if f.res(s0[m], Cmp::Less) && (m == 0 || f.res(s0[m - 1], Cmp::Greater)) {
        assert(spec_cmp(k, s0[m].0) == Cmp::Less);
        assert(lt(k, s0[m].0));
        assert forall|i: int| 0 <= i < m implies lt((#[trigger] s0[i]).0, k) by {
            assert(f.res(s0[m - 1], Cmp::Greater));
            assert(spec_cmp(k, s0[m - 1].0) == Cmp::Greater);
            K::lemma_connex(k, s0[m - 1].0);
            assert(lt(s0[m - 1].0, k));
            if i < m - 1 {
                lemma_lt_trans(s0[i].0, s0[m - 1].0, k);
            }
        }
        assert forall|i: int| m < i < s0.len() implies lt(k, (#[trigger] s0[i]).0) by {
            lemma_lt_trans(k, s0[m].0, s0[i].0);
        }
        assert forall|i: int| 0 <= i < s0.len() implies (#[trigger] s0[i]).0 != k by {
            if i < m {
                assert(lt(s0[i].0, k));
            } else if i == m {
                assert(lt(k, s0[m].0));
            } else {
                assert(lt(k, s0[i].0));
            }
        }
    } else {
        assert(f.res(s0[m], Cmp::Greater) && (m == s0.len() - 1 || f.res(s0[m + 1], Cmp::Less)));
        assert(spec_cmp(k, s0[m].0) == Cmp::Greater);
        K::lemma_connex(k, s0[m].0);
        assert(lt(s0[m].0, k));
        assert forall|i: int| 0 <= i < m implies lt((#[trigger] s0[i]).0, k) by {
            lemma_lt_trans(s0[i].0, s0[m].0, k);
        }
        assert forall|i: int| m < i < s0.len() implies lt(k, (#[trigger] s0[i]).0) by {
            assert(f.res(s0[m + 1], Cmp::Less));
            assert(spec_cmp(k, s0[m + 1].0) == Cmp::Less);
            assert(lt(k, s0[m + 1].0));
            if i > m + 1 {
                lemma_lt_trans(k, s0[m + 1].0, s0[i].0);
            }
        }
        assert forall|i: int| 0 <= i < s0.len() implies (#[trigger] s0[i]).0 != k by {
            if i < m {
                assert(lt(s0[i].0, k));
            } else if i == m {
                assert(lt(s0[m].0, k));
            } else {
                assert(lt(k, s0[i].0));
            }
        }
    }
}

} // verus!

verus! {

/// Ordered-map law: after a write, looking the written key up yields
/// exactly the new value.
pub proof fn lemma_put_get_same<K: TotalOrder, V>(s: Seq<(K, V)>, k: K, v: V)
    requires
        sorted_pairs(s),
    ensures
        seq_find(seq_put(s, k, v), k) == Some(v),
    decreases s.len(),
{
    if s.len() == 0 {
    } else if lt(k, s[0].0) {
        let t = seq_put(s, k, v);
        assert(t[0] == (k, v));
    } else if k == s[0].0 {
        let t = seq_put(s, k, v);
        assert(t[0] == (k, v));
    } else {
        lemma_sorted_subrange(s, 1, s.len() as int);
        lemma_put_get_same(s.drop_first(), k, v);
        let t = seq![s[0]] + seq_put(s.drop_first(), k, v);
        assert(t[0] == s[0] && s[0].0 != k);
        assert(t.drop_first() =~= seq_put(s.drop_first(), k, v));
    }
}

/// Ordered-map law: a write leaves every other key's value untouched.
pub proof fn lemma_put_get_other<K: TotalOrder, V>(s: Seq<(K, V)>, k: K, v: V, k2: K)
    requires
        sorted_pairs(s),
        k2 != k,
    ensures
        seq_find(seq_put(s, k, v), k2) == seq_find(s, k2),
    decreases s.len(),
{
    if s.len() == 0 {
        let t = seq_put(s, k, v);
        assert(t[0] == (k, v));
        assert(t.drop_first() =~= Seq::<(K, V)>::empty());
        assert(seq_find(t, k2) == seq_find(t.drop_first(), k2));
    } else if lt(k, s[0].0) {
        let t = seq_put(s, k, v);
        assert(t[0] == (k, v));
        assert(t.drop_first() =~= s);
        assert(seq_find(t, k2) == seq_find(t.drop_first(), k2));
    } else if k == s[0].0 {
        let t = seq_put(s, k, v);
        assert(t[0] == (k, v));
        assert(t.drop_first() =~= s.drop_first());
        assert(seq_find(t, k2) == seq_find(t.drop_first(), k2));
        assert(seq_find(s, k2) == seq_find(s.drop_first(), k2));
    } else {
        lemma_sorted_subrange(s, 1, s.len() as int);
        lemma_put_get_other(s.drop_first(), k, v, k2);
        let t = seq![s[0]] + seq_put(s.drop_first(), k, v);
        assert(t[0] == s[0]);
        assert(t.drop_first() =~= seq_put(s.drop_first(), k, v));
        if s[0].0 == k2 {
            assert(seq_find(t, k2) == Some(t[0].1));
            assert(seq_find(s, k2) == Some(s[0].1));
        } else {
            assert(seq_find(t, k2) == seq_find(t.drop_first(), k2));
            assert(seq_find(s, k2) == seq_find(s.drop_first(), k2));
        }
    }
}

/// Ordered-map law: after a removal the key is gone.
pub proof fn lemma_del_get_same<K: TotalOrder, V>(s: Seq<(K, V)>, k: K)
    requires
        sorted_pairs(s),
    ensures
        seq_find(seq_del(s, k), k) == None::<V>,
    decreases s.len(),
{
    if s.len() == 0 {
    } else if s[0].0 == k {
        lemma_sorted_subrange(s, 1, s.len() as int);
        assert forall|i: int|
            0 <= i < s.drop_first().len() implies (#[trigger] s.drop_first()[i]).0 != k by {
            assert(s.drop_first()[i] == s[i + 1]);
            assert(lt(s[0].0, s[i + 1].0));
        }
        lemma_find_absent(s.drop_first(), k);
    } else {
        lemma_sorted_subrange(s, 1, s.len() as int);
        lemma_del_get_same(s.drop_first(), k);
        let t = seq![s[0]] + seq_del(s.drop_first(), k);
        assert(t[0] == s[0]);
        assert(t.drop_first() =~= seq_del(s.drop_first(), k));
    }
}

/// Ordered-map law: a removal leaves every other key's value untouched.
pub proof fn lemma_del_get_other<K: TotalOrder, V>(s: Seq<(K, V)>, k: K, k2: K)
    requires
        sorted_pairs(s),
        k2 != k,
    ensures
        seq_find(seq_del(s, k), k2) == seq_find(s, k2),
    decreases s.len(),
{
    if s.len() == 0 {
    } else if s[0].0 == k {
    } else {
        lemma_sorted_subrange(s, 1, s.len() as int);
        lemma_del_get_other(s.drop_first(), k, k2);
        let t = seq![s[0]] + seq_del(s.drop_first(), k);
        assert(t[0] == s[0]);
        assert(t.drop_first() =~= seq_del(s.drop_first(), k));
    }
}

/// Size law: writing an existing key keeps the pair count, writing a fresh
/// key grows it by exactly one; a key is present exactly when lookup
/// succeeds.
pub proof fn lemma_put_len<K: TotalOrder, V>(s: Seq<(K, V)>, k: K, v: V)
    requires
        sorted_pairs(s),
    ensures
        has_key(s, k) ==> seq_put(s, k, v).len() == s.len(),
        !has_key(s, k) ==> seq_put(s, k, v).len() == s.len() + 1,
        has_key(s, k) <==> seq_find(s, k) is Some,
    decreases s.len(),
{
    if s.len() == 0 {
        assert(!has_key(s, k));
    } else {
        lemma_sorted_subrange(s, 1, s.len() as int);
        lemma_put_len(s.drop_first(), k, v);
        assert(has_key(s, k) <==> (s[0].0 == k || has_key(s.drop_first(), k))) by {
            if has_key(s, k) && s[0].0 != k {
                let i = choose|i: int| 0 <= i < s.len() && (#[trigger] s[i]).0 == k;
                assert(s.drop_first()[i - 1] == s[i]);
            }
            if has_key(s.drop_first(), k) {
                let i = choose|i: int|
                    0 <= i < s.drop_first().len() && (#[trigger] s.drop_first()[i]).0 == k;
                assert(s[i + 1] == s.drop_first()[i]);
            }
        }
        if lt(k, s[0].0) {
            assert forall|i: int| 0 <= i < s.len() implies (#[trigger] s[i]).0 != k by {
                if i > 0 {
                    lemma_lt_trans(k, s[0].0, s[i].0);
                }
            }
            assert(!has_key(s, k));
        } else if k == s[0].0 {
            assert(has_key(s, k));
        }
    }
}

/// Size law: removing a present key shrinks the pair count by exactly one;
/// removing an absent key changes nothing.
pub proof fn lemma_del_len<K: TotalOrder, V>(s: Seq<(K, V)>, k: K)
    requires
        sorted_pairs(s),
    ensures
        has_key(s, k) ==> seq_del(s, k).len() == s.len() - 1,
        !has_key(s, k) ==> seq_del(s, k) == s,
    decreases s.len(),
{
    if s.len() == 0 {
    } else {
        lemma_sorted_subrange(s, 1, s.len() as int);
        lemma_del_len(s.drop_first(), k);
        assert(has_key(s, k) <==> (s[0].0 == k || has_key(s.drop_first(), k))) by {
            if has_key(s, k) && s[0].0 != k {
                let i = choose|i: int| 0 <= i < s.len() && (#[trigger] s[i]).0 == k;
                assert(s.drop_first()[i - 1] == s[i]);
            }
            if has_key(s.drop_first(), k) {
                let i = choose|i: int|
                    0 <= i < s.drop_first().len() && (#[trigger] s.drop_first()[i]).0 == k;
                assert(s[i + 1] == s.drop_first()[i]);
            }
        }
        if s[0].0 != k {
            if !has_key(s, k) {
                assert(seq![s[0]] + seq_del(s.drop_first(), k) =~= s);
            }
        }
    }
}

impl<K: TotalOrder, V> SplayMap<K, V> {
    /// A well-formed map's in-order sequence has strictly ascending keys:
    /// forward iteration is ascending, backward descending.
    pub proof fn lemma_in_order_sorted(self)
        requires
            self.wf(),
        ensures
            sorted_pairs(self.in_order()),
    {
    }
}

impl<K: TotalOrder, V> IntoIter<K, V> {
    /// A well-formed iterator's remaining sequence has strictly ascending
    /// keys and its reported count is exact.
    pub proof fn lemma_remaining_exact(self)
        requires
            self.wf(),
        ensures
            sorted_pairs(self.seq()),
    {
    }
}

} // verus!

verus! {

/// The sequence after writing a whole batch of pairs in order: later
/// writes win on duplicate keys.
pub open spec fn put_all<K: TotalOrder, V>(s: Seq<(K, V)>, pairs: Seq<(K, V)>) -> Seq<(K, V)>
    decreases pairs.len(),
{
    if pairs.len() == 0 {
        s
    } else {
        put_all(seq_put(s, pairs[0].0, pairs[0].1), pairs.drop_first())
    }
}

impl<K: TotalOrder, V> SplayMap<K, V> {
    /// Inserts a whole batch of pairs, in order: on duplicate keys the
    /// last value wins.
    pub fn extend_vec(&mut self, pairs: Vec<(K, V)>)
        requires
            old(self).wf(),
            old(self).in_order().len() + pairs@.len() < usize::MAX,
        ensures
            final(self).wf(),
            final(self).in_order() == put_all(old(self).in_order(), pairs@),
    {
        let ghost s0 = self.in_order();
        let ghost pairs0 = pairs@;
        let mut pairs = pairs;
        loop
            invariant
                self.wf(),
                s0.len() + pairs0.len() < usize::MAX,
                put_all(s0, pairs0) == put_all(self.in_order(), pairs@),
                self.in_order().len() + pairs@.len() <= s0.len() + pairs0.len(),
            ensures
                self.wf(),
                pairs@.len() == 0,
                put_all(s0, pairs0) == put_all(self.in_order(), pairs@),
            decreases pairs@.len(),
        {
            if pairs.len() == 0 {
                break;
            }
            let ghost cur = self.in_order();
            let ghost rem = pairs@;
            let (k, v) = pairs.remove(0);
            proof {
                assert(pairs@ =~= rem.drop_first());
                lemma_put_len(cur, k, v);
            }
            self.insert(k, v);
        }
    }

    /// Builds a map from a batch of pairs: last value wins per key.
    pub fn from_vec(pairs: Vec<(K, V)>) -> (m: SplayMap<K, V>)
        requires
            pairs@.len() < usize::MAX,
        ensures
            m.wf(),
            m.in_order() == put_all(Seq::<(K, V)>::empty(), pairs@),
    {
        let mut m = SplayMap::new();
        m.extend_vec(pairs);
        m
    }
}

/// Deep copy of a subtree holding plainly copyable pairs.
fn clone_opt<K: TotalOrder + Copy, V: Copy>(n: &Option<Box<Node<K, V>>>) -> (r: Option<
    Box<Node<K, V>>,
>)
    ensures
        opt_seq(r) == opt_seq(*n),
    decreases n,
{
    match n {
        None => None,
        Some(b) => {
            let l = clone_opt(&b.left);
            let rt = clone_opt(&b.right);
            let nb = Box::new(Node { kv: b.kv, left: l, right: rt });
            let ghost nbg = nb;
            proof {
                assert(opt_seq(Some(nbg)) == opt_seq(nbg.left) + seq![nbg.kv] + opt_seq(
                    nbg.right,
                ));
            }
            Some(nb)
        }
    }
}

impl<K: TotalOrder + Copy, V: Copy> Clone for SplayMap<K, V> {
    /// Deep copy with independent ownership and the same content.
    fn clone(&self) -> (res: Self)
        ensures
            res.in_order() == self.in_order(),
            self.wf() ==> res.wf(),
    {
        SplayMap { root: clone_opt(&self.root), size: self.size }
    }
}

} // verus!
