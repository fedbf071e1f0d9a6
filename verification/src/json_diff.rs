use vstd::prelude::*;

use crate::json_merge::lemma_merge_self;
use crate::json_merge::lemma_merged_pairs_shift;
use crate::json_merge::merged;
use crate::json_merge::merged_pairs;
use crate::tree::find_key;
use crate::tree::find_key_vec;
use crate::tree::group_obj_ops;
use crate::tree::group_tree_model;
use crate::tree::keys_unique;
use crate::tree::lemma_find_key;
use crate::tree::lemma_lookup_push;
use crate::tree::lemma_lookup_remove;
use crate::tree::lemma_lookup_update;
use crate::tree::lemma_view_variant;
use crate::tree::lookup;
use crate::tree::obj_model;
use crate::tree::remove_key;
use crate::tree::Tree;
use crate::tree::TreeValue;

verus! {

broadcast use group_tree_model, group_obj_ops;

/// The difference from `a` to `b`: `None` when nothing has to change, or the
/// minimal overlay that merging onto `a` is meant to reproduce `b`'s changes.
/// When both are objects, the overlay holds one pair for each of `b`'s pairs
/// that is absent from `a` (taken verbatim) or differs in `a` (taken as the
/// recursive difference); in every other case the overlay is `b` itself
/// whenever the two differ.
pub open spec fn diffed(a: Tree, b: Tree) -> Option<Tree>
    decreases b, 1int,
{
    if a is Obj && b is Obj {
        proof {
            assert(decreases_to!(b => b->Obj_0));
        }
        let pairs = diffed_pairs(a->Obj_0, b->Obj_0, 0);
        if pairs.len() == 0 {
            None
        } else {
            Some(Tree::Obj(pairs))
        }
    } else {
        if a == b {
            None
        } else {
            Some(b)
        }
    }
}

/// The overlay pairs produced for `bp[i..]` against the base pairs `ap`, in
/// order: a pair absent from `ap` is kept verbatim, an equal pair is dropped,
/// and a differing pair is kept as the recursive difference when there is one.
pub open spec fn diffed_pairs(
    ap: Seq<(Seq<char>, Tree)>,
    bp: Seq<(Seq<char>, Tree)>,
    i: int,
) -> Seq<(Seq<char>, Tree)>
    decreases bp, bp.len() - i,
{
    if 0 <= i < bp.len() {
        let k = bp[i].0;
        let vb = bp[i].1;
        let head = match find_key(ap, k) {
            Some(j) => if ap[j].1 == vb {
                Seq::<(Seq<char>, Tree)>::empty()
            } else {
                proof {
                    assert(decreases_to!(bp => bp[i]));
                    assert(decreases_to!(bp[i] => bp[i].1));
                }
                match diffed(ap[j].1, vb) {
                    Some(d) => seq![(k, d)],
                    None => Seq::<(Seq<char>, Tree)>::empty(),
                }
            },
            None => seq![(k, vb)],
        };
        head + diffed_pairs(ap, bp, i + 1)
    } else {
        Seq::<(Seq<char>, Tree)>::empty()
    }
}

/// The difference from `a` to `b` as a value: `None` exactly when the
/// model-level difference is `None`, otherwise the overlay tree whose model is
/// the model-level difference.
#[verifier::loop_isolation(false)]
pub fn diff(a: &TreeValue, b: &TreeValue) -> (r: Option<TreeValue>)
    ensures
        match r {
            Some(t) => diffed(a@, b@) == Some(t@),
            None => diffed(a@, b@) is None,
        },
    decreases b,
{
    match (a, b) {
        (TreeValue::Obj(ap), TreeValue::Obj(bp)) => {
            let ghost am = obj_model(ap@);
            let ghost bm = obj_model(bp@);
            let mut out: Vec<(String, TreeValue)> = Vec::new();
            let mut i: usize = 0;
            proof {
                assert(Seq::<(Seq<char>, Tree)>::empty() + diffed_pairs(am, bm, 0)
                    =~= diffed_pairs(am, bm, 0));
            }
            while i < bp.len()
                invariant
                    i <= bp@.len(),
                    diffed_pairs(am, bm, 0) == obj_model(out@) + diffed_pairs(am, bm, i as int),
                decreases bp@.len() - i,
            {
                let ghost out_prev = obj_model(out@);
                proof {
                    assert(bm[i as int] == (bp@[i as int].0@, bp@[i as int].1@));
                    assert(decreases_to!(b => bp));
                    assert(decreases_to!(bp => bp@));
                    assert(decreases_to!(bp@ => bp@[i as int]));
                    assert(decreases_to!(bp@[i as int] => bp@[i as int].1));
                }
                match find_key_vec(ap, &bp[i].0) {
                    Some(j) => {
                        proof {
                            assert(am[j as int] == (ap@[j as int].0@, ap@[j as int].1@));
                        }
                        if !ap[j].1.deep_eq(&bp[i].1) {
                            match diff(&ap[j].1, &bp[i].1) {
                                Some(d) => {
                                    out.push((bp[i].0.clone(), d));
                                    proof {
                                        assert(obj_model(out@) == out_prev.push(
                                            (bm[i as int].0, d@),
                                        ));
                                    }
                                },
                                None => {},
                            }
                        }
                    },
                    None => {
                        out.push((bp[i].0.clone(), bp[i].1.clone()));
                        proof {
                            assert(obj_model(out@) == out_prev.push(
                                (bm[i as int].0, bm[i as int].1),
                            ));
                        }
                    },
                }
                proof {
                    assert(diffed_pairs(am, bm, 0) =~= obj_model(out@) + diffed_pairs(
                        am,
                        bm,
                        i + 1,
                    ));
                }
                i += 1;
            }
            proof {
                assert(diffed_pairs(am, bm, bp@.len() as int)
                    =~= Seq::<(Seq<char>, Tree)>::empty());
                assert(diffed_pairs(am, bm, 0) =~= obj_model(out@));
            }
            if out.len() == 0 {
                None
            } else {
                Some(TreeValue::Obj(out))
            }
        },
        (x, y) => {
            proof {
                lemma_view_variant(x);
                lemma_view_variant(y);
            }
            if x.deep_eq(y) {
                None
            } else {
                Some(y.clone())
            }
        },
    }
}

/// Merging the overlay that `diffed_pairs` produces for `bp[i..]` against
/// `ap` onto an evolving base `cp` acts exactly like merging `bp[i..]`
/// itself, provided `cp` still binds every key that `bp[i..]` names the way
/// `ap` does, and none of those bindings is a tombstone.
pub proof fn lemma_diffed_pairs_merge(
    ap: Seq<(Seq<char>, Tree)>,
    bp: Seq<(Seq<char>, Tree)>,
    i: int,
    cp: Seq<(Seq<char>, Tree)>,
)
    requires
        keys_unique(ap),
        keys_unique(bp),
        keys_unique(cp),
        0 <= i <= bp.len(),
        forall|t: int| i <= t < bp.len() ==> (#[trigger] bp[t]).1.wf(),
        forall|t: int|
            i <= t < bp.len() ==> lookup(cp, (#[trigger] bp[t]).0) == lookup(ap, bp[t].0),
        forall|t: int|
            i <= t < bp.len() ==> match lookup(ap, (#[trigger] bp[t]).0) {
                Some(w) => !(w is Null) && w.wf() && w.no_null_entries(),
                None => true,
            },
    ensures
        merged_pairs(cp, diffed_pairs(ap, bp, i), 0) == merged_pairs(cp, bp, i),
    decreases bp, bp.len() - i,
{
    if i < bp.len() {
        let k = bp[i].0;
        let vb = bp[i].1;
        assert(decreases_to!(bp => bp[i]));
        assert(decreases_to!(bp[i] => bp[i].1));
        lemma_find_key(ap, k);
        lemma_find_key(cp, k);
        let dp_rest = diffed_pairs(ap, bp, i + 1);
        let dp_here = diffed_pairs(ap, bp, i);
        match find_key(ap, k) {
            Some(j) => {
                let w = ap[j].1;
                assert(lookup(ap, k) == Some(w));
                assert(lookup(cp, k) == Some(w));
                assert(!(w is Null) && w.wf() && w.no_null_entries());
                let jc = find_key(cp, k)->Some_0;
                assert(cp[jc].1 == w && cp[jc].0 == k);
                if w == vb {
                    // Equal values: the diff omits the pair, the merge rebinds
                    // the key to the value it already has.
                    assert(dp_here =~= Seq::<(Seq<char>, Tree)>::empty() + dp_rest);
                    assert(dp_here =~= dp_rest);
                    lemma_merge_self(w);
                    let cp2 = cp.update(jc, (k, merged(cp[jc].1, vb)));
                    assert(cp2 =~= cp);
                    lemma_diffed_pairs_merge(ap, bp, i + 1, cp);
                } else {
                    lemma_diff_merge_round_trip_tree(w, vb);
                    match diffed(w, vb) {
                        None => {
                            // The recursive diff is empty: the pair is
                            // omitted, and merging `vb` does not change the
                            // binding.
                            assert(dp_here =~= Seq::<(Seq<char>, Tree)>::empty() + dp_rest);
                            assert(dp_here =~= dp_rest);
                            assert(merged(w, vb) == w);
                            assert(!(vb is Null));
                            let cp2 = cp.update(jc, (k, merged(cp[jc].1, vb)));
                            assert(cp2 =~= cp);
                            lemma_diffed_pairs_merge(ap, bp, i + 1, cp);
                        },
                        Some(d) => {
                            assert(dp_here =~= seq![(k, d)] + dp_rest);
                            assert(dp_here[0] == (k, d));
                            if vb is Null {
                                assert(d == vb);
                                let cp2 = remove_key(cp, k);
                                assert(cp2 == cp.remove(jc));
                                lemma_lookup_remove_all(cp, jc, ap, bp, i + 1);
                                assert(merged_pairs(cp, dp_here, 0) == merged_pairs(
                                    cp2,
                                    dp_here,
                                    1,
                                ));
                                lemma_merged_pairs_shift(cp2, dp_here, 1, dp_rest, 0);
                                lemma_diffed_pairs_merge(ap, bp, i + 1, cp2);
                            } else {
                                assert(!(d is Null)) by {
                                    if w is Obj && vb is Obj {
                                    } else {
                                        assert(d == vb);
                                    }
                                }
                                assert(merged(w, d) == merged(w, vb));
                                let cp2 = cp.update(jc, (k, merged(cp[jc].1, d)));
                                let cp3 = cp.update(jc, (k, merged(cp[jc].1, vb)));
                                assert(merged_pairs(cp, dp_here, 0) == merged_pairs(
                                    cp2,
                                    dp_here,
                                    1,
                                ));
                                assert(cp2 == cp3);
                                lemma_lookup_update_all(cp, jc, merged(cp[jc].1, vb), ap, bp, i + 1);
                                lemma_merged_pairs_shift(cp2, dp_here, 1, dp_rest, 0);
                                lemma_diffed_pairs_merge(ap, bp, i + 1, cp2);
                            }
                        },
                    }
                }
            },
            None => {
                assert(lookup(cp, k) is None);
                assert(find_key(cp, k) is None);
                assert(dp_here =~= seq![(k, vb)] + dp_rest);
                assert(dp_here[0] == (k, vb));
                if vb is Null {
                    assert(remove_key(cp, k) == cp);
                    assert(merged_pairs(cp, dp_here, 0) == merged_pairs(cp, dp_here, 1));
                    lemma_merged_pairs_shift(cp, dp_here, 1, dp_rest, 0);
                    lemma_diffed_pairs_merge(ap, bp, i + 1, cp);
                } else {
                    let cp2 = cp.push((k, vb));
                    assert(merged_pairs(cp, dp_here, 0) == merged_pairs(cp2, dp_here, 1));
                    lemma_lookup_push_all(cp, (k, vb), ap, bp, i + 1);
                    lemma_merged_pairs_shift(cp2, dp_here, 1, dp_rest, 0);
                    lemma_diffed_pairs_merge(ap, bp, i + 1, cp2);
                }
            },
        }
    } else {
        assert(diffed_pairs(ap, bp, i) =~= Seq::<(Seq<char>, Tree)>::empty());
    }
}

/// Updating one binding, key kept, preserves the agreement of `cp` with `ap`
/// on the keys that `bp[i..]` names, but for the updated key itself.
proof fn lemma_lookup_update_all(
    cp: Seq<(Seq<char>, Tree)>,
    j: int,
    w: Tree,
    ap: Seq<(Seq<char>, Tree)>,
    bp: Seq<(Seq<char>, Tree)>,
    i: int,
)
    requires
        keys_unique(cp),
        keys_unique(bp),
        0 <= j < cp.len(),
        0 < i <= bp.len(),
        forall|t: int|
            i - 1 <= t < bp.len() ==> lookup(cp, (#[trigger] bp[t]).0) == lookup(ap, bp[t].0),
        cp[j].0 == bp[i - 1].0,
    ensures
        keys_unique(cp.update(j, (cp[j].0, w))),
        forall|t: int|
            i <= t < bp.len() ==> lookup(cp.update(j, (cp[j].0, w)), (#[trigger] bp[t]).0)
                == lookup(ap, bp[t].0),
{
    assert forall|t: int|
        i <= t < bp.len() implies lookup(cp.update(j, (cp[j].0, w)), (#[trigger] bp[t]).0)
        == lookup(ap, bp[t].0) by {
        lemma_lookup_update(cp, j, w, bp[t].0);
        if cp[j].0 == bp[t].0 {
            assert(0 <= i - 1 < t < bp.len());
            assert(bp[i - 1].0 != bp[t].0);
        }
    }
    lemma_lookup_update(cp, j, w, cp[j].0);
}

/// Removing one binding preserves the agreement of `cp` with `ap` on the keys
/// that `bp[i..]` names, but for the removed key itself.
proof fn lemma_lookup_remove_all(
    cp: Seq<(Seq<char>, Tree)>,
    j: int,
    ap: Seq<(Seq<char>, Tree)>,
    bp: Seq<(Seq<char>, Tree)>,
    i: int,
)
    requires
        keys_unique(cp),
        keys_unique(bp),
        0 <= j < cp.len(),
        0 < i <= bp.len(),
        forall|t: int|
            i - 1 <= t < bp.len() ==> lookup(cp, (#[trigger] bp[t]).0) == lookup(ap, bp[t].0),
        cp[j].0 == bp[i - 1].0,
    ensures
        keys_unique(cp.remove(j)),
        forall|t: int|
            i <= t < bp.len() ==> lookup(cp.remove(j), (#[trigger] bp[t]).0) == lookup(
                ap,
                bp[t].0,
            ),
{
    assert forall|t: int|
        i <= t < bp.len() implies lookup(cp.remove(j), (#[trigger] bp[t]).0) == lookup(
        ap,
        bp[t].0,
    ) by {
        lemma_lookup_remove(cp, j, bp[t].0);
        if cp[j].0 == bp[t].0 {
            assert(bp[i - 1].0 == bp[t].0);
            assert(false);
        }
    }
    lemma_lookup_remove(cp, j, cp[j].0);
}

/// Appending a fresh binding preserves the agreement of `cp` with `ap` on the
/// keys that `bp[i..]` names, but for the appended key itself.
proof fn lemma_lookup_push_all(
    cp: Seq<(Seq<char>, Tree)>,
    p: (Seq<char>, Tree),
    ap: Seq<(Seq<char>, Tree)>,
    bp: Seq<(Seq<char>, Tree)>,
    i: int,
)
    requires
        keys_unique(cp),
        keys_unique(bp),
        find_key(cp, p.0) is None,
        0 < i <= bp.len(),
        forall|t: int|
            i - 1 <= t < bp.len() ==> lookup(cp, (#[trigger] bp[t]).0) == lookup(ap, bp[t].0),
        p.0 == bp[i - 1].0,
    ensures
        keys_unique(cp.push(p)),
        forall|t: int|
            i <= t < bp.len() ==> lookup(cp.push(p), (#[trigger] bp[t]).0) == lookup(
                ap,
                bp[t].0,
            ),
{
    assert forall|t: int|
        i <= t < bp.len() implies lookup(cp.push(p), (#[trigger] bp[t]).0) == lookup(
        ap,
        bp[t].0,
    ) by {
        lemma_lookup_push(cp, p, bp[t].0);
        if p.0 == bp[t].0 {
            assert(bp[i - 1].0 == bp[t].0);
            assert(false);
        }
    }
    lemma_lookup_push(cp, p, p.0);
}

/// The diff/merge round trip, on models: when the difference from `a` to `b`
/// is empty, merging `b` onto `a` changes nothing; when it is an overlay `p`,
/// merging `p` onto `a` acts exactly like merging `b` onto `a`; and outside
/// the object-onto-object case such an overlay reproduces `b` itself. Holds
/// for well-formed trees whose base `a` carries no tombstone.
pub proof fn lemma_diff_merge_round_trip_tree(a: Tree, b: Tree)
    requires
        a.wf(),
        a.no_null_entries(),
        b.wf(),
    ensures
        diffed(a, b) is None ==> merged(a, b) == a,
        diffed(a, b) matches Some(p) ==> merged(a, p) == merged(a, b),
        (!(a is Obj) || !(b is Obj)) ==> (diffed(a, b) matches Some(p) ==> merged(a, p) == b),
    decreases b, 1int,
{
    if a is Obj && b is Obj {
        let ap = a->Obj_0;
        let bp = b->Obj_0;
        assert(decreases_to!(b => bp));
        let dp = diffed_pairs(ap, bp, 0);
        assert forall|t: int|
            0 <= t < bp.len() implies match lookup(ap, (#[trigger] bp[t]).0) {
            Some(w) => !(w is Null) && w.wf() && w.no_null_entries(),
            None => true,
        } by {
            lemma_find_key(ap, bp[t].0);
            match find_key(ap, bp[t].0) {
                Some(j) => {
                    assert(!((ap[j]).1 is Null) && ap[j].1.no_null_entries());
                    assert(ap[j].1.wf());
                },
                None => {},
            }
        }
        lemma_diffed_pairs_merge(ap, bp, 0, ap);
        if dp.len() == 0 {
            assert(merged_pairs(ap, dp, 0) == ap);
            assert(merged_pairs(ap, bp, 0) == ap);
            assert(a == Tree::Obj(ap));
        } else {
            assert(diffed(a, b) == Some(Tree::Obj(dp)));
            assert(merged(a, Tree::Obj(dp)) == Tree::Obj(merged_pairs(ap, dp, 0)));
            assert(merged(a, b) == Tree::Obj(merged_pairs(ap, bp, 0)));
        }
    }
}


/// The overlay pairs that a diff produces have pairwise distinct keys, each
/// taken from the target's suffix, and carry well-formed values.
pub proof fn lemma_diffed_pairs_wf(
    ap: Seq<(Seq<char>, Tree)>,
    bp: Seq<(Seq<char>, Tree)>,
    i: int,
)
    requires
        forall|t: int| 0 <= t < ap.len() ==> (#[trigger] ap[t]).1.wf(),
        keys_unique(bp),
        forall|t: int| i <= t < bp.len() ==> (#[trigger] bp[t]).1.wf(),
        0 <= i <= bp.len(),
    ensures
        keys_unique(diffed_pairs(ap, bp, i)),
        forall|t: int|
            0 <= t < diffed_pairs(ap, bp, i).len() ==> (#[trigger] diffed_pairs(ap, bp, i)[t]).1.wf(),
        forall|t: int|
            0 <= t < diffed_pairs(ap, bp, i).len() ==> exists|u: int|
                i <= u < bp.len() && (#[trigger] bp[u]).0 == (#[trigger] diffed_pairs(
                    ap,
                    bp,
                    i,
                )[t]).0,
    decreases bp, bp.len() - i,
{
    if i < bp.len() {
        let k = bp[i].0;
        let vb = bp[i].1;
        assert(decreases_to!(bp => bp[i]));
        assert(decreases_to!(bp[i] => bp[i].1));
        lemma_find_key(ap, k);
        lemma_diffed_pairs_wf(ap, bp, i + 1);
        let dp_rest = diffed_pairs(ap, bp, i + 1);
        let dp_here = diffed_pairs(ap, bp, i);
        let head = dp_here.subrange(0, dp_here.len() - dp_rest.len());
        assert(dp_here == head + dp_rest) by {
            assert(dp_here =~= head + dp_rest);
        }
        match find_key(ap, k) {
            Some(j) => {
                if ap[j].1 != vb {
                    lemma_diff_wf_tree(ap[j].1, vb);
                }
            },
            None => {},
        }
        assert forall|t: int| 0 <= t < dp_here.len() implies (#[trigger] dp_here[t]).1.wf() by {
            if t >= dp_here.len() - dp_rest.len() {
                assert(dp_here[t] == dp_rest[t - (dp_here.len() - dp_rest.len())]);
            }
        }
        assert forall|t: int|
            0 <= t < dp_here.len() implies exists|u: int|
            i <= u < bp.len() && (#[trigger] bp[u]).0 == (#[trigger] dp_here[t]).0 by {
            if t < dp_here.len() - dp_rest.len() {
                assert(dp_here[t].0 == k);
                assert((bp[i]).0 == dp_here[t].0);
            } else {
                let tr = t - (dp_here.len() - dp_rest.len());
                assert(dp_here[t] == dp_rest[tr]);
                let u = choose|u: int| i + 1 <= u < bp.len() && (#[trigger] bp[u]).0 == dp_rest[tr].0;
                assert((bp[u]).0 == dp_here[t].0);
            }
        }
        assert forall|s: int, t: int|
            0 <= s < t < dp_here.len() implies dp_here[s].0 != dp_here[t].0 by {
            let hl = dp_here.len() - dp_rest.len();
            if s < hl {
                assert(dp_here[s].0 == k);
                let tr = t - hl;
                assert(dp_here[t] == dp_rest[tr]);
                let u = choose|u: int| i + 1 <= u < bp.len() && (#[trigger] bp[u]).0 == dp_rest[tr].0;
                assert(bp[i].0 != bp[u].0);
            } else {
                assert(dp_here[s] == dp_rest[s - hl]);
                assert(dp_here[t] == dp_rest[t - hl]);
            }
        }
    } else {
        assert(diffed_pairs(ap, bp, i) =~= Seq::<(Seq<char>, Tree)>::empty());
    }
}

/// A diff of well-formed trees is well-formed: the patch is a tree whose
/// objects keep their keys pairwise distinct.
pub proof fn lemma_diff_wf_tree(a: Tree, b: Tree)
    requires
        a.wf(),
        b.wf(),
    ensures
        diffed(a, b) matches Some(p) ==> p.wf(),
    decreases b, 1int,
{
    if a is Obj && b is Obj {
        let ap = a->Obj_0;
        let bp = b->Obj_0;
        assert(decreases_to!(b => bp));
        lemma_diffed_pairs_wf(ap, bp, 0);
    }
}

} // verus!
