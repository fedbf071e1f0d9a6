use vstd::prelude::*;

use crate::tree::find_key;
use crate::tree::find_key_vec;
use crate::tree::group_obj_ops;
use crate::tree::group_tree_model;
use crate::tree::keys_unique;
use crate::tree::lemma_find_key;
use crate::tree::lemma_find_key_pinned;
use crate::tree::lemma_lookup_push;
use crate::tree::lemma_lookup_remove;
use crate::tree::lemma_lookup_update;
use crate::tree::lemma_view_variant;
use crate::tree::lookup;
use crate::tree::obj_model;
use crate::tree::remove_key;
use crate::tree::Tree;
use crate::tree::TreeValue;

verus! {

broadcast use group_tree_model, group_obj_ops;

/// The merge of `overlay` onto `base`: when both are objects the overlay's
/// pairs are folded onto the base's pairs in order; in every other case the
/// overlay replaces the base wholesale.
pub open spec fn merged(base: Tree, overlay: Tree) -> Tree
    decreases overlay, 1int,
{
    if base is Obj && overlay is Obj {
        proof {
            assert(decreases_to!(overlay => overlay->Obj_0));
        }
        Tree::Obj(merged_pairs(base->Obj_0, overlay->Obj_0, 0))
    } else {
        overlay
    }
}

/// Folds the overlay pairs `op[i..]` onto the base pairs `bp`, one pair at a
/// time and in order: a `Null` value deletes the first pair with that key, any
/// other value is merged over the first pair with that key, or appended when
/// the key is absent.
pub open spec fn merged_pairs(
    bp: Seq<(Seq<char>, Tree)>,
    op: Seq<(Seq<char>, Tree)>,
    i: int,
) -> Seq<(Seq<char>, Tree)>
    decreases op, op.len() - i,
{
    if 0 <= i < op.len() {
        let k = op[i].0;
        let v = op[i].1;
        let step = if v is Null {
            remove_key(bp, k)
        } else {
            proof {
                assert(decreases_to!(op => op[i]));
                assert(decreases_to!(op[i] => op[i].1));
            }
            match find_key(bp, k) {
                Some(j) => bp.update(j, (k, merged(bp[j].1, v))),
                None => bp.push((k, v)),
            }
        };
        merged_pairs(step, op, i + 1)
    } else {
        bp
    }
}

/// The merge of `overlay` onto `base` as a value: returns a tree whose model
/// is exactly `merged` of the two models.
#[verifier::loop_isolation(false)]
pub fn merge_value(base: TreeValue, overlay: TreeValue) -> (r: TreeValue)
    ensures
        r@ == merged(base@, overlay@),
    decreases overlay@,
{
    match (base, overlay) {
        (TreeValue::Obj(bp), TreeValue::Obj(op)) => {
            let mut res = bp;
            let ghost m0 = obj_model(res@);
            let ghost om = obj_model(op@);
            let mut i: usize = 0;
            while i < op.len()
                invariant
                    i <= op@.len(),
                    merged_pairs(m0, om, 0) == merged_pairs(obj_model(res@), om, i as int),
                decreases op@.len() - i,
            {
                let ghost bp_prev = obj_model(res@);
                proof {
                    assert(om[i as int] == (op@[i as int].0@, op@[i as int].1@));
                }
                let is_null = matches!(&op[i].1, TreeValue::Null);
                if is_null {
                    proof {
                        lemma_view_variant(&op@[i as int].1);
                    }
                    match find_key_vec(&res, &op[i].0) {
                        Some(j) => {
                            let _ = res.remove(j);
                            proof {
                                assert(obj_model(res@) == bp_prev.remove(j as int));
                                assert(obj_model(res@) == remove_key(bp_prev, om[i as int].0));
                            }
                        },
                        None => {
                            proof {
                                assert(obj_model(res@) == remove_key(bp_prev, om[i as int].0));
                            }
                        },
                    }
                } else {
                    proof {
                        lemma_view_variant(&op@[i as int].1);
                        assert(decreases_to!(overlay@ => overlay@->Obj_0));
                        assert(decreases_to!(om => om[i as int]));
                        assert(decreases_to!(om[i as int] => om[i as int].1));
                    }
                    let k = op[i].0.clone();
                    let v = op[i].1.clone();
                    match find_key_vec(&res, &k) {
                        Some(j) => {
                            let old_pair = res.remove(j);
                            let nv = merge_value(old_pair.1, v);
                            res.insert(j, (k, nv));
                            proof {
                                assert(old_pair.1@ == bp_prev[j as int].1);
                                assert(obj_model(res@) == bp_prev.remove(j as int).insert(
                                    j as int,
                                    (om[i as int].0, nv@),
                                ));
                                assert(obj_model(res@) =~= bp_prev.update(
                                    j as int,
                                    (om[i as int].0, merged(bp_prev[j as int].1, om[i as int].1)),
                                ));
                            }
                        },
                        None => {
                            res.push((k, v));
                            proof {
                                assert(obj_model(res@) == bp_prev.push(
                                    (om[i as int].0, om[i as int].1),
                                ));
                            }
                        },
                    }
                }
                proof {
                    assert(merged_pairs(bp_prev, om, i as int) == merged_pairs(
                        obj_model(res@),
                        om,
                        i + 1,
                    ));
                }
                i += 1;
            }
            proof {
                assert(merged_pairs(obj_model(res@), om, op@.len() as int) == obj_model(res@));
            }
            TreeValue::Obj(res)
        },
        (b, o) => {
            proof {
                lemma_view_variant(&b);
                lemma_view_variant(&o);
            }
            o
        },
    }
}

/// Merges `overlay` onto `base` in place: afterwards the base holds exactly
/// the merge of the two previous values.
pub fn merge(base: &mut TreeValue, overlay: TreeValue)
    ensures
        final(base)@ == merged(old(base)@, overlay@),
{
    let mut taken = TreeValue::Null;
    core::mem::swap(base, &mut taken);
    let merged_value = merge_value(taken, overlay);
    let mut out = merged_value;
    core::mem::swap(base, &mut out);
}

/// The first position at or after `i` whose key is `k`, if any.
pub open spec fn find_key_from(op: Seq<(Seq<char>, Tree)>, i: int, k: Seq<char>) -> Option<int>
    decreases op.len() - i,
{
    if 0 <= i < op.len() {
        if op[i].0 == k {
            Some(i)
        } else {
            find_key_from(op, i + 1, k)
        }
    } else {
        None
    }
}

/// `find_key_from` is the first occurrence at or after `i`, or `None` when
/// the suffix misses the key.
pub proof fn lemma_find_key_from(op: Seq<(Seq<char>, Tree)>, i: int, k: Seq<char>)
    requires
        0 <= i <= op.len(),
    ensures
        match find_key_from(op, i, k) {
            Some(t) => i <= t < op.len() && op[t].0 == k && (forall|j: int|
                i <= j < t ==> (#[trigger] op[j]).0 != k),
            None => forall|j: int| i <= j < op.len() ==> (#[trigger] op[j]).0 != k,
        },
    decreases op.len() - i,
{
    if i < op.len() && op[i].0 != k {
        lemma_find_key_from(op, i + 1, k);
    }
}

/// Folding an overlay suffix onto base pairs with distinct keys keeps the
/// keys distinct, and binds each key as the overlay's first matching pair
/// says: a `Null` unbinds it, another value is merged over the base's binding
/// or bound verbatim, and a key the overlay never names keeps its binding.
pub proof fn lemma_merged_pairs_lookup(
    bp: Seq<(Seq<char>, Tree)>,
    op: Seq<(Seq<char>, Tree)>,
    i: int,
    k: Seq<char>,
)
    requires
        keys_unique(bp),
        keys_unique(op),
        0 <= i <= op.len(),
    ensures
        keys_unique(merged_pairs(bp, op, i)),
        lookup(merged_pairs(bp, op, i), k) == match find_key_from(op, i, k) {
            Some(t) => if op[t].1 is Null {
                None
            } else {
                match lookup(bp, k) {
                    Some(w) => Some(merged(w, op[t].1)),
                    None => Some(op[t].1),
                }
            },
            None => lookup(bp, k),
        },
    decreases op.len() - i,
{
    if i < op.len() {
        let k0 = op[i].0;
        let v = op[i].1;
        lemma_find_key(bp, k0);
        let bp2 = if v is Null {
            remove_key(bp, k0)
        } else {
            match find_key(bp, k0) {
                Some(j) => bp.update(j, (k0, merged(bp[j].1, v))),
                None => bp.push((k0, v)),
            }
        };
        if v is Null {
            match find_key(bp, k0) {
                Some(j) => {
                    lemma_lookup_remove(bp, j, k);
                    lemma_lookup_remove(bp, j, k0);
                },
                None => {},
            }
        } else {
            match find_key(bp, k0) {
                Some(j) => {
                    assert(bp[j].0 == k0);
                    lemma_lookup_update(bp, j, merged(bp[j].1, v), k);
                    lemma_lookup_update(bp, j, merged(bp[j].1, v), k0);
                },
                None => {
                    lemma_lookup_push(bp, (k0, v), k);
                    lemma_lookup_push(bp, (k0, v), k0);
                },
            }
        }
        lemma_merged_pairs_lookup(bp2, op, i + 1, k);
        if k == k0 {
            lemma_find_key_from(op, i + 1, k);
            match find_key_from(op, i + 1, k) {
                Some(t) => {
                    assert(op[i].0 == op[t].0);
                    assert(false);
                },
                None => {},
            }
        }
    }
}

/// Folding an overlay onto base pairs that already absorbed it changes
/// nothing: every `Null` pair names an unbound key, and every other pair's
/// value merges into the base's binding without changing it.
pub proof fn lemma_merged_pairs_identity(
    cp: Seq<(Seq<char>, Tree)>,
    op: Seq<(Seq<char>, Tree)>,
    i: int,
)
    requires
        keys_unique(cp),
        keys_unique(op),
        0 <= i <= op.len(),
        forall|t: int|
            i <= t < op.len() && (#[trigger] op[t]).1 is Null ==> lookup(cp, op[t].0) is None,
        forall|t: int|
            i <= t < op.len() && !((#[trigger] op[t]).1 is Null) ==> (lookup(cp, op[t].0) matches Some(
                w,
            ) && merged(w, op[t].1) == w),
    ensures
        merged_pairs(cp, op, i) == cp,
    decreases op.len() - i,
{
    if i < op.len() {
        let k = op[i].0;
        let v = op[i].1;
        lemma_find_key(cp, k);
        if v is Null {
            assert(lookup(cp, k) is None);
            assert(remove_key(cp, k) == cp);
        } else {
            assert(lookup(cp, k) matches Some(w) && merged(w, v) == w);
            match find_key(cp, k) {
                Some(j) => {
                    assert(cp.update(j, (k, merged(cp[j].1, v))) =~= cp);
                },
                None => {
                    assert(false);
                },
            }
        }
        lemma_merged_pairs_identity(cp, op, i + 1);
    }
}

/// Merging a well-formed tree without tombstones onto itself changes nothing.
pub proof fn lemma_merge_self(v: Tree)
    requires
        v.wf(),
        v.no_null_entries(),
    ensures
        merged(v, v) == v,
    decreases v,
{
    if v is Obj {
        let ps = v->Obj_0;
        assert forall|t: int|
            0 <= t < ps.len() && !((#[trigger] ps[t]).1 is Null) implies (lookup(ps, ps[t].0) matches Some(
            w,
        ) && merged(w, ps[t].1) == w) by {
            lemma_find_key_pinned(ps, ps[t].0, t);
            assert(decreases_to!(v => ps));
            assert(decreases_to!(ps => ps[t]));
            assert(decreases_to!(ps[t] => ps[t].1));
            lemma_merge_self(ps[t].1);
        }
        lemma_merged_pairs_identity(ps, ps, 0);
        assert(v == Tree::Obj(ps));
    }
}

/// Merging the same overlay a second time changes nothing, for any overlay
/// without tombstones.
pub proof fn lemma_merge_overlay_idem(x: Tree, v: Tree)
    requires
        x.wf(),
        v.wf(),
        v.no_null_entries(),
    ensures
        merged(merged(x, v), v) == merged(x, v),
    decreases v,
{
    if !(v is Obj) {
        assert(merged(x, v) == v);
        assert(merged(v, v) == v);
    } else if !(x is Obj) {
        assert(merged(x, v) == v);
        lemma_merge_self(v);
    } else {
        let xp = x->Obj_0;
        let vp = v->Obj_0;
        let m = merged_pairs(xp, vp, 0);
        lemma_merged_pairs_lookup(xp, vp, 0, Seq::<char>::empty());
        assert forall|t: int|
            0 <= t < vp.len() && !((#[trigger] vp[t]).1 is Null) implies (lookup(m, vp[t].0) matches Some(
            w,
        ) && merged(w, vp[t].1) == w) by {
            let k = vp[t].0;
            let u = vp[t].1;
            assert(decreases_to!(v => vp));
            assert(decreases_to!(vp => vp[t]));
            assert(decreases_to!(vp[t] => vp[t].1));
            lemma_merged_pairs_lookup(xp, vp, 0, k);
            lemma_find_key_pinned(vp, k, t);
            lemma_find_key_from_head(vp, k, t);
            match lookup(xp, k) {
                Some(xw) => {
                    assert(lookup(m, k) == Some(merged(xw, u)));
                    lemma_find_key(xp, k);
                    lemma_merge_overlay_idem(xw, u);
                },
                None => {
                    assert(lookup(m, k) == Some(u));
                    lemma_merge_self(u);
                },
            }
        }
        assert forall|t: int|
            0 <= t < vp.len() && (#[trigger] vp[t]).1 is Null implies lookup(m, vp[t].0) is None by {
            assert(!(vp[t].1 is Null));
        }
        lemma_merged_pairs_identity(m, vp, 0);
    }
}

/// `find_key_from` from the start agrees with the pinned first occurrence.
pub proof fn lemma_find_key_from_head(op: Seq<(Seq<char>, Tree)>, k: Seq<char>, t: int)
    requires
        0 <= t < op.len(),
        op[t].0 == k,
        forall|j: int| 0 <= j < t ==> (#[trigger] op[j]).0 != k,
    ensures
        find_key_from(op, 0, k) == Some(t),
{
    lemma_find_key_from(op, 0, k);
    match find_key_from(op, 0, k) {
        None => {
            assert(op[t].0 != k);
        },
        Some(j) => {
            if j < t {
                assert(op[j].0 != k);
            }
            if t < j {
                assert(op[t].0 != k);
            }
        },
    }
}

/// An overlay object is re-appliable when each of its values is either the
/// `Null` tombstone or a tree without tombstones.
pub open spec fn overlay_reapplyable(b: Tree) -> bool {
    b is Obj && forall|t: int|
        0 <= t < b->Obj_0.len() ==> ((#[trigger] b->Obj_0[t]).1 is Null
            || b->Obj_0[t].1.no_null_entries())
}

/// Merge is idempotent on objects: merging the same overlay `b` a second time
/// onto `merged(a, b)` changes nothing, for well-formed objects whose overlay
/// carries no tombstone below its own top level.
pub proof fn lemma_merge_idempotent(a: Tree, b: Tree)
    requires
        a is Obj,
        b is Obj,
        a.wf(),
        b.wf(),
        overlay_reapplyable(b),
    ensures
        merged(merged(a, b), b) == merged(a, b),
{
    let ap = a->Obj_0;
    let bp = b->Obj_0;
    let m = merged_pairs(ap, bp, 0);
    lemma_merged_pairs_lookup(ap, bp, 0, Seq::<char>::empty());
    assert forall|t: int|
        0 <= t < bp.len() && (#[trigger] bp[t]).1 is Null implies lookup(m, bp[t].0) is None by {
        let k = bp[t].0;
        lemma_merged_pairs_lookup(ap, bp, 0, k);
        lemma_find_key_from_head(bp, k, t);
    }
    assert forall|t: int|
        0 <= t < bp.len() && !((#[trigger] bp[t]).1 is Null) implies (lookup(m, bp[t].0) matches Some(
        w,
    ) && merged(w, bp[t].1) == w) by {
        let k = bp[t].0;
        let v = bp[t].1;
        lemma_merged_pairs_lookup(ap, bp, 0, k);
        lemma_find_key_from_head(bp, k, t);
        match lookup(ap, k) {
            Some(xw) => {
                assert(lookup(m, k) == Some(merged(xw, v)));
                lemma_find_key(ap, k);
                lemma_merge_overlay_idem(xw, v);
            },
            None => {
                assert(lookup(m, k) == Some(v));
                lemma_merge_self(v);
            },
        }
    }
    lemma_merged_pairs_identity(m, bp, 0);
}

/// A `Null` tombstone deletes: merging the one-pair overlay `{k: Null}` onto
/// an object removes the pair with key `k`, and changes nothing when the key
/// is absent.
pub proof fn lemma_null_tombstone(base: Tree, k: Seq<char>)
    requires
        base is Obj,
    ensures
        merged(base, Tree::Obj(seq![(k, Tree::Null)])) == Tree::Obj(
            remove_key(base->Obj_0, k),
        ),
        find_key(base->Obj_0, k) is None ==> merged(base, Tree::Obj(seq![(k, Tree::Null)]))
            == base,
{
    let bp = base->Obj_0;
    let op = seq![(k, Tree::Null)];
    assert(op[0] == (k, Tree::Null));
    assert(merged_pairs(remove_key(bp, k), op, 1) == remove_key(bp, k));
    assert(merged_pairs(bp, op, 0) == remove_key(bp, k));
    assert(base == Tree::Obj(bp));
}

/// Everything but an object-onto-object merge replaces wholesale: the overlay
/// is the result, arrays and scalars included.
pub proof fn lemma_wholesale_replace(base: Tree, overlay: Tree)
    requires
        !(base is Obj) || !(overlay is Obj),
    ensures
        merged(base, overlay) == overlay,
{
}

/// `merged_pairs` reads only the overlay's suffix: equal suffixes fold alike.
pub proof fn lemma_merged_pairs_shift(
    bp: Seq<(Seq<char>, Tree)>,
    op1: Seq<(Seq<char>, Tree)>,
    i1: int,
    op2: Seq<(Seq<char>, Tree)>,
    i2: int,
)
    requires
        0 <= i1 <= op1.len(),
        0 <= i2 <= op2.len(),
        op1.len() - i1 == op2.len() - i2,
        forall|t: int| 0 <= t < op1.len() - i1 ==> #[trigger] op1[i1 + t] == op2[i2 + t],
    ensures
        merged_pairs(bp, op1, i1) == merged_pairs(bp, op2, i2),
    decreases op1.len() - i1,
{
    if i1 < op1.len() {
        assert(op1[i1 + 0] == op2[i2 + 0]);
        assert(op1[i1] == op2[i2]);
        let k = op1[i1].0;
        let v = op1[i1].1;
        let step = if v is Null {
            remove_key(bp, k)
        } else {
            match find_key(bp, k) {
                Some(j) => bp.update(j, (k, merged(bp[j].1, v))),
                None => bp.push((k, v)),
            }
        };
        assert forall|t: int|
            0 <= t < op1.len() - (i1 + 1) implies #[trigger] op1[i1 + 1 + t] == op2[i2 + 1
            + t] by {
            assert(op1[i1 + (1 + t)] == op2[i2 + (1 + t)]);
        }
        lemma_merged_pairs_shift(step, op1, i1 + 1, op2, i2 + 1);
    }
}


/// Merging preserves well-formedness: the merge of two well-formed trees is
/// well-formed, keys staying pairwise distinct in every object.
pub proof fn lemma_merged_wf(a: Tree, b: Tree)
    requires
        a.wf(),
        b.wf(),
    ensures
        merged(a, b).wf(),
    decreases b,
{
    if a is Obj && b is Obj {
        let ap = a->Obj_0;
        let bp = b->Obj_0;
        let m = merged_pairs(ap, bp, 0);
        lemma_merged_pairs_lookup(ap, bp, 0, Seq::<char>::empty());
        assert forall|t: int| 0 <= t < m.len() implies (#[trigger] m[t]).1.wf() by {
            let k = m[t].0;
            lemma_find_key_pinned(m, k, t);
            lemma_merged_pairs_lookup(ap, bp, 0, k);
            assert(lookup(m, k) == Some(m[t].1));
            lemma_find_key_from(bp, 0, k);
            lemma_find_key(ap, k);
            match find_key_from(bp, 0, k) {
                Some(tb) => {
                    assert(decreases_to!(b => bp));
                    assert(decreases_to!(bp => bp[tb]));
                    assert(decreases_to!(bp[tb] => bp[tb].1));
                    assert(!(bp[tb].1 is Null));
                    match lookup(ap, k) {
                        Some(w) => {
                            lemma_merged_wf(w, bp[tb].1);
                            assert(m[t].1 == merged(w, bp[tb].1));
                        },
                        None => {
                            assert(m[t].1 == bp[tb].1);
                        },
                    }
                },
                None => {
                    assert(lookup(ap, k) == Some(m[t].1));
                },
            }
        }
    }
}

} // verus!
