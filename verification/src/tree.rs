use vstd::prelude::*;

verus! {

/// The mathematical model of a dynamically typed configuration tree: the value
/// of a `TreeValue`, with text as sequences of characters, numbers as
/// unbounded integers, and an object as its ordered sequence of key/value
/// pairs.
#[verifier::ext_equal]
pub enum Tree {
    Null,
    Bool(bool),
    Num(int),
    Str(Seq<char>),
    Arr(Seq<Tree>),
    Obj(Seq<(Seq<char>, Tree)>),
}

/// A dynamically typed tree value: the common representation for layered
/// configuration data. An object keeps its pairs in insertion order; a
/// well-formed object has pairwise distinct keys (see [`Tree::wf`]).
#[derive(Debug)]
pub enum TreeValue {
    Null,
    Bool(bool),
    Num(i64),
    Str(String),
    Arr(Vec<TreeValue>),
    Obj(Vec<(String, TreeValue)>),
}

/// The model of an array's elements: each element abstracted to its model.
pub open spec fn arr_model(items: Seq<TreeValue>) -> Seq<Tree>
    decreases items,
{
    Seq::new(
        items.len(),
        |i: int|
            if 0 <= i < items.len() {
                proof {
                    assert(decreases_to!(items => items[i]));
                }
                items[i]@
            } else {
                Tree::Null
            },
    )
}

/// The model of an object's pairs: each key as a character sequence, each
/// value abstracted to its model.
pub open spec fn obj_model(pairs: Seq<(String, TreeValue)>) -> Seq<(Seq<char>, Tree)>
    decreases pairs,
{
    Seq::new(
        pairs.len(),
        |i: int|
            if 0 <= i < pairs.len() {
                proof {
                    assert(decreases_to!(pairs => pairs[i]));
                    assert(decreases_to!(pairs[i] => pairs[i].1));
                }
                (pairs[i].0@, pairs[i].1@)
            } else {
                (Seq::empty(), Tree::Null)
            },
    )
}

impl View for TreeValue {
    type V = Tree;

    open spec fn view(&self) -> Tree
        decreases self,
    {
        match self {
            TreeValue::Null => Tree::Null,
            TreeValue::Bool(b) => Tree::Bool(*b),
            TreeValue::Num(n) => Tree::Num(*n as int),
            TreeValue::Str(s) => Tree::Str(s@),
            TreeValue::Arr(items) => {
                proof {
                    assert(decreases_to!(self => items));
                    assert(decreases_to!(items => items@));
                }
                Tree::Arr(arr_model(items@))
            },
            TreeValue::Obj(pairs) => {
                proof {
                    assert(decreases_to!(self => pairs));
                    assert(decreases_to!(pairs => pairs@));
                }
                Tree::Obj(obj_model(pairs@))
            },
        }
    }
}

pub broadcast proof fn lemma_arr_model_len(items: Seq<TreeValue>)
    ensures
        (#[trigger] arr_model(items)).len() == items.len(),
{
}

pub broadcast proof fn lemma_arr_model_index(items: Seq<TreeValue>, i: int)
    requires
        0 <= i < items.len(),
    ensures
        #[trigger] arr_model(items)[i] == items[i]@,
{
}

pub broadcast proof fn lemma_obj_model_len(pairs: Seq<(String, TreeValue)>)
    ensures
        (#[trigger] obj_model(pairs)).len() == pairs.len(),
{
}

pub broadcast proof fn lemma_obj_model_index(pairs: Seq<(String, TreeValue)>, i: int)
    requires
        0 <= i < pairs.len(),
    ensures
        #[trigger] obj_model(pairs)[i] == (pairs[i].0@, pairs[i].1@),
{
}

pub broadcast group group_tree_model {
    lemma_arr_model_len,
    lemma_arr_model_index,
    lemma_obj_model_len,
    lemma_obj_model_index,
}

/// The model of a value is built with the constructor that matches the
/// value's own variant.
pub proof fn lemma_view_variant(t: &TreeValue)
    ensures
        (t matches TreeValue::Null) <==> (t@ is Null),
        (t matches TreeValue::Bool(_)) <==> (t@ is Bool),
        (t matches TreeValue::Num(_)) <==> (t@ is Num),
        (t matches TreeValue::Str(_)) <==> (t@ is Str),
        (t matches TreeValue::Arr(_)) <==> (t@ is Arr),
        (t matches TreeValue::Obj(_)) <==> (t@ is Obj),
{
    match t {
        TreeValue::Null => assert(t@ is Null),
        TreeValue::Bool(_) => assert(t@ is Bool),
        TreeValue::Num(_) => assert(t@ is Num),
        TreeValue::Str(_) => assert(t@ is Str),
        TreeValue::Arr(_) => assert(t@ is Arr),
        TreeValue::Obj(_) => assert(t@ is Obj),
    }
}

impl TreeValue {
    /// Structural equality: `true` exactly when the two trees have the same
    /// model, variant and contents compared recursively.
    #[verifier::loop_isolation(false)]
    pub fn deep_eq(&self, other: &TreeValue) -> (r: bool)
        ensures
            r == (self@ == other@),
        decreases self,
    {
        broadcast use group_tree_model;

        match (self, other) {
            (TreeValue::Null, TreeValue::Null) => true,
            (TreeValue::Bool(a), TreeValue::Bool(b)) => *a == *b,
            (TreeValue::Num(a), TreeValue::Num(b)) => *a == *b,
            (TreeValue::Str(a), TreeValue::Str(b)) => *a == *b,
            (TreeValue::Arr(a), TreeValue::Arr(b)) => {
                if a.len() != b.len() {
                    proof {
                        assert(arr_model(a@).len() == a@.len());
                        assert(arr_model(b@).len() == b@.len());
                    }
                    false
                } else {
                    let mut i: usize = 0;
                    while i < a.len()
                        invariant
                            a@.len() == b@.len(),
                            i <= a@.len(),
                            forall|j: int| 0 <= j < i ==> a@[j]@ == b@[j]@,
                        decreases a@.len() - i,
                    {
                        proof {
                            assert(decreases_to!(self => a));
                            assert(decreases_to!(a => a@));
                            assert(decreases_to!(a@ => a@[i as int]));
                        }
                        if !a[i].deep_eq(&b[i]) {
                            proof {
                                assert(arr_model(a@)[i as int] == a@[i as int]@);
                                assert(arr_model(b@)[i as int] == b@[i as int]@);
                            }
                            return false;
                        }
                        i += 1;
                    }
                    proof {
                        assert(arr_model(a@) =~= arr_model(b@));
                    }
                    true
                }
            },
            (TreeValue::Obj(a), TreeValue::Obj(b)) => {
                if a.len() != b.len() {
                    proof {
                        assert(obj_model(a@).len() == a@.len());
                        assert(obj_model(b@).len() == b@.len());
                    }
                    false
                } else {
                    let mut i: usize = 0;
                    while i < a.len()
                        invariant
                            a@.len() == b@.len(),
                            i <= a@.len(),
                            forall|j: int|
                                0 <= j < i ==> a@[j].0@ == b@[j].0@ && a@[j].1@ == b@[j].1@,
                        decreases a@.len() - i,
                    {
                        proof {
                            assert(decreases_to!(self => a));
                            assert(decreases_to!(a => a@));
                            assert(decreases_to!(a@ => a@[i as int]));
                            assert(decreases_to!(a@[i as int] => a@[i as int].1));
                        }
                        let keys_eq = a[i].0 == b[i].0;
                        if !(keys_eq && a[i].1.deep_eq(&b[i].1)) {
                            proof {
                                assert(obj_model(a@)[i as int] == (
                                    a@[i as int].0@,
                                    a@[i as int].1@,
                                ));
                                assert(obj_model(b@)[i as int] == (
                                    b@[i as int].0@,
                                    b@[i as int].1@,
                                ));
                            }
                            return false;
                        }
                        i += 1;
                    }
                    proof {
                        assert(obj_model(a@) =~= obj_model(b@));
                    }
                    true
                }
            },
            _ => {
                proof {
                    lemma_view_variant(self);
                    lemma_view_variant(other);
                }
                false
            },
        }
    }
}

impl Clone for TreeValue {
    /// A structural copy: the clone has the same model as the original.
    #[verifier::loop_isolation(false)]
    fn clone(&self) -> (r: TreeValue)
        ensures
            r@ == self@,
        decreases self,
    {
        broadcast use group_tree_model;

        match self {
            TreeValue::Null => TreeValue::Null,
            TreeValue::Bool(b) => TreeValue::Bool(*b),
            TreeValue::Num(n) => TreeValue::Num(*n),
            TreeValue::Str(s) => TreeValue::Str(s.clone()),
            TreeValue::Arr(items) => {
                let mut out: Vec<TreeValue> = Vec::new();
                let mut i: usize = 0;
                while i < items.len()
                    invariant
                        i <= items@.len(),
                        out@.len() == i,
                        forall|j: int| 0 <= j < i ==> out@[j]@ == items@[j]@,
                    decreases items@.len() - i,
                {
                    proof {
                        assert(decreases_to!(self => items));
                        assert(decreases_to!(items => items@));
                        assert(decreases_to!(items@ => items@[i as int]));
                    }
                    out.push(items[i].clone());
                    i += 1;
                }
                proof {
                    assert(arr_model(out@) =~= arr_model(items@));
                }
                TreeValue::Arr(out)
            },
            TreeValue::Obj(pairs) => {
                let mut out: Vec<(String, TreeValue)> = Vec::new();
                let mut i: usize = 0;
                while i < pairs.len()
                    invariant
                        i <= pairs@.len(),
                        out@.len() == i,
                        forall|j: int|
                            0 <= j < i ==> out@[j].0@ == pairs@[j].0@ && out@[j].1@
                                == pairs@[j].1@,
                    decreases pairs@.len() - i,
                {
                    proof {
                        assert(decreases_to!(self => pairs));
                        assert(decreases_to!(pairs => pairs@));
                        assert(decreases_to!(pairs@ => pairs@[i as int]));
                        assert(decreases_to!(pairs@[i as int] => pairs@[i as int].1));
                    }
                    out.push((pairs[i].0.clone(), pairs[i].1.clone()));
                    i += 1;
                }
                proof {
                    assert(obj_model(out@) =~= obj_model(pairs@));
                }
                TreeValue::Obj(out)
            },
        }
    }
}

impl PartialEq for TreeValue {
    fn eq(&self, other: &TreeValue) -> (r: bool) {
        self.deep_eq(other)
    }
}

impl vstd::std_specs::cmp::PartialEqSpecImpl for TreeValue {
    open spec fn obeys_eq_spec() -> bool {
        true
    }

    open spec fn eq_spec(&self, other: &TreeValue) -> bool {
        self@ == other@
    }
}

/// The position of the first pair with key `k`, if any.
pub open spec fn find_key(pairs: Seq<(Seq<char>, Tree)>, k: Seq<char>) -> Option<int>
    decreases pairs.len(),
{
    if pairs.len() == 0 {
        None
    } else if pairs[0].0 == k {
        Some(0int)
    } else {
        match find_key(pairs.drop_first(), k) {
            None => None,
            Some(j) => Some(j + 1),
        }
    }
}

/// The pairs without the first occurrence of key `k`; unchanged when the key
/// is absent.
pub open spec fn remove_key(pairs: Seq<(Seq<char>, Tree)>, k: Seq<char>) -> Seq<(Seq<char>, Tree)> {
    match find_key(pairs, k) {
        None => pairs,
        Some(j) => pairs.remove(j),
    }
}

/// `find_key` returns the first position whose key is `k`, or `None` when no
/// pair has that key.
pub broadcast proof fn lemma_find_key(pairs: Seq<(Seq<char>, Tree)>, k: Seq<char>)
    ensures
        match #[trigger] find_key(pairs, k) {
            Some(j) => 0 <= j < pairs.len() && pairs[j].0 == k && (forall|i: int|
                0 <= i < j ==> (#[trigger] pairs[i]).0 != k),
            None => forall|i: int| 0 <= i < pairs.len() ==> (#[trigger] pairs[i]).0 != k,
        },
    decreases pairs.len(),
{
    if pairs.len() > 0 && pairs[0].0 != k {
        let rest = pairs.drop_first();
        lemma_find_key(rest, k);
        assert(forall|i: int| 0 <= i < rest.len() ==> #[trigger] rest[i] == pairs[i + 1]);
        match find_key(rest, k) {
            None => {
                assert forall|i: int| 0 <= i < pairs.len() implies (#[trigger] pairs[i]).0 != k by {
                    if i > 0 {
                        assert(rest[i - 1] == pairs[i]);
                    }
                }
            },
            Some(j) => {
                assert(rest[j] == pairs[j + 1]);
                assert forall|i: int| 0 <= i < j + 1 implies (#[trigger] pairs[i]).0 != k by {
                    if i > 0 {
                        assert(rest[i - 1] == pairs[i]);
                    }
                }
            },
        }
    }
}

/// Removing an indexed pair commutes with taking the object model.
pub broadcast proof fn lemma_obj_model_remove(pairs: Seq<(String, TreeValue)>, j: int)
    requires
        0 <= j < pairs.len(),
    ensures
        #[trigger] obj_model(pairs.remove(j)) == obj_model(pairs).remove(j),
{
    broadcast use group_tree_model;

    assert(obj_model(pairs.remove(j)) =~= obj_model(pairs).remove(j));
}

/// Appending a pair commutes with taking the object model.
pub broadcast proof fn lemma_obj_model_push(pairs: Seq<(String, TreeValue)>, p: (String, TreeValue))
    ensures
        #[trigger] obj_model(pairs.push(p)) == obj_model(pairs).push((p.0@, p.1@)),
{
    broadcast use group_tree_model;

    assert(obj_model(pairs.push(p)) =~= obj_model(pairs).push((p.0@, p.1@)));
}

/// Inserting a pair commutes with taking the object model.
pub broadcast proof fn lemma_obj_model_insert(
    pairs: Seq<(String, TreeValue)>,
    j: int,
    p: (String, TreeValue),
)
    requires
        0 <= j <= pairs.len(),
    ensures
        #[trigger] obj_model(pairs.insert(j, p)) == obj_model(pairs).insert(j, (p.0@, p.1@)),
{
    broadcast use group_tree_model;

    assert(obj_model(pairs.insert(j, p)) =~= obj_model(pairs).insert(j, (p.0@, p.1@)));
}

pub broadcast group group_obj_ops {
    lemma_find_key,
    lemma_obj_model_remove,
    lemma_obj_model_push,
    lemma_obj_model_insert,
}

/// The position of the first pair whose key equals `k`, or `None` when no
/// pair has that key; agrees with the model-level [`find_key`].
pub fn find_key_vec(pairs: &Vec<(String, TreeValue)>, k: &String) -> (r: Option<usize>)
    ensures
        match r {
            Some(j) => find_key(obj_model(pairs@), k@) == Some(j as int),
            None => find_key(obj_model(pairs@), k@) is None,
        },
{
    broadcast use group_tree_model;

    let mut i: usize = 0;
    while i < pairs.len()
        invariant
            i <= pairs@.len(),
            forall|j: int| 0 <= j < i ==> (#[trigger] obj_model(pairs@)[j]).0 != k@,
        decreases pairs@.len() - i,
    {
        proof {
            assert(obj_model(pairs@)[i as int] == (pairs@[i as int].0@, pairs@[i as int].1@));
        }
        if pairs[i].0 == *k {
            proof {
                lemma_find_key(obj_model(pairs@), k@);
                match find_key(obj_model(pairs@), k@) {
                    None => {
                        assert(false);
                    },
                    Some(j) => {
                        if j < i as int {
                            assert(obj_model(pairs@)[j].0 != k@);
                            assert(false);
                        }
                        if j > i as int {
                            assert(obj_model(pairs@)[i as int].0 != k@);
                            assert(false);
                        }
                    },
                }
            }
            return Some(i);
        }
        i += 1;
    }
    proof {
        lemma_find_key(obj_model(pairs@), k@);
        match find_key(obj_model(pairs@), k@) {
            None => {},
            Some(j) => {
                assert(obj_model(pairs@)[j].0 != k@);
                assert(false);
            },
        }
    }
    None
}

impl Tree {
    /// Well-formedness: every object in the tree has pairwise distinct keys.
    pub open spec fn wf(self) -> bool
        decreases self,
    {
        match self {
            Tree::Arr(items) => forall|i: int| 0 <= i < items.len() ==> (#[trigger] items[i]).wf(),
            Tree::Obj(pairs) => (forall|i: int|
                0 <= i < pairs.len() ==> (#[trigger] pairs[i]).1.wf()) && keys_unique(pairs),
            _ => true,
        }
    }

    /// No object in the tree holds a pair whose value is `Null`: every value
    /// is a real value, never a tombstone.
    pub open spec fn no_null_entries(self) -> bool
        decreases self,
    {
        match self {
            Tree::Obj(pairs) => forall|i: int|
                0 <= i < pairs.len() ==> !((#[trigger] pairs[i]).1 is Null)
                    && pairs[i].1.no_null_entries(),
            _ => true,
        }
    }
}

/// Pairwise distinct keys.
pub open spec fn keys_unique(pairs: Seq<(Seq<char>, Tree)>) -> bool {
    forall|i: int, j: int| 0 <= i < j < pairs.len() ==> pairs[i].0 != pairs[j].0
}

/// The value bound to key `k` among the pairs, if any.
pub open spec fn lookup(pairs: Seq<(Seq<char>, Tree)>, k: Seq<char>) -> Option<Tree> {
    match find_key(pairs, k) {
        Some(j) => Some(pairs[j].1),
        None => None,
    }
}

/// `find_key` is pinned down by the first-occurrence property: any position
/// whose key is `k` and whose predecessors all miss `k` is the result.
pub proof fn lemma_find_key_pinned(pairs: Seq<(Seq<char>, Tree)>, k: Seq<char>, t: int)
    requires
        0 <= t < pairs.len(),
        pairs[t].0 == k,
        forall|i: int| 0 <= i < t ==> (#[trigger] pairs[i]).0 != k,
    ensures
        find_key(pairs, k) == Some(t),
{
    lemma_find_key(pairs, k);
    match find_key(pairs, k) {
        None => {
            assert(pairs[t].0 != k);
        },
        Some(j) => {
            if j < t {
                assert(pairs[j].0 != k);
            }
            if t < j {
                assert(pairs[t].0 != k);
            }
        },
    }
}

/// Replacing the value at a position, key kept, moves every lookup of that
/// key to the new value and leaves every other key's lookup alone.
pub proof fn lemma_lookup_update(pairs: Seq<(Seq<char>, Tree)>, j: int, w: Tree, k: Seq<char>)
    requires
        keys_unique(pairs),
        0 <= j < pairs.len(),
    ensures
        keys_unique(pairs.update(j, (pairs[j].0, w))),
        lookup(pairs.update(j, (pairs[j].0, w)), k) == if pairs[j].0 == k {
            Some(w)
        } else {
            lookup(pairs, k)
        },
        find_key(pairs.update(j, (pairs[j].0, w)), k) == find_key(pairs, k),
{
    let upd = pairs.update(j, (pairs[j].0, w));
    lemma_find_key(pairs, k);
    lemma_find_key(upd, k);
    assert(forall|i: int| 0 <= i < pairs.len() ==> (#[trigger] upd[i]).0 == pairs[i].0);
    match find_key(pairs, k) {
        None => {
            match find_key(upd, k) {
                None => {},
                Some(t) => {
                    assert(pairs[t].0 == k);
                },
            }
        },
        Some(t) => {
            lemma_find_key_pinned(upd, k, t);
        },
    }
    if pairs[j].0 == k {
        match find_key(pairs, k) {
            None => {
                assert(pairs[j].0 != k);
            },
            Some(t) => {
                if t != j {
                    assert(pairs[t].0 == k && pairs[j].0 == k);
                    if t < j {
                        assert(pairs[t].0 != pairs[j].0);
                    } else {
                        assert(pairs[j].0 != pairs[t].0);
                    }
                }
            },
        }
    }
}

/// Appending a pair with a fresh key binds that key and leaves every other
/// key's lookup alone.
pub proof fn lemma_lookup_push(pairs: Seq<(Seq<char>, Tree)>, p: (Seq<char>, Tree), k: Seq<char>)
    requires
        keys_unique(pairs),
        find_key(pairs, p.0) is None,
    ensures
        keys_unique(pairs.push(p)),
        lookup(pairs.push(p), k) == if p.0 == k {
            Some(p.1)
        } else {
            lookup(pairs, k)
        },
        p.0 != k ==> find_key(pairs.push(p), k) == find_key(pairs, k),
{
    let ext = pairs.push(p);
    lemma_find_key(pairs, k);
    lemma_find_key(ext, k);
    lemma_find_key(pairs, p.0);
    assert(forall|i: int| 0 <= i < pairs.len() ==> (#[trigger] ext[i]) == pairs[i]);
    assert(ext[pairs.len() as int] == p);
    if p.0 == k {
        lemma_find_key_pinned(ext, k, pairs.len() as int);
    } else {
        match find_key(pairs, k) {
            None => {
                match find_key(ext, k) {
                    None => {},
                    Some(t) => {
                        assert(ext[t].0 == k);
                        assert(t == pairs.len());
                    },
                }
            },
            Some(t) => {
                lemma_find_key_pinned(ext, k, t);
            },
        }
    }
}

/// Removing the one pair with key `k0` unbinds `k0` and leaves every other
/// key's lookup alone.
pub proof fn lemma_lookup_remove(pairs: Seq<(Seq<char>, Tree)>, j: int, k: Seq<char>)
    requires
        keys_unique(pairs),
        0 <= j < pairs.len(),
    ensures
        keys_unique(pairs.remove(j)),
        lookup(pairs.remove(j), k) == if pairs[j].0 == k {
            None::<Tree>
        } else {
            lookup(pairs, k)
        },
{
    let cut = pairs.remove(j);
    lemma_find_key(pairs, k);
    lemma_find_key(cut, k);
    assert(forall|i: int| 0 <= i < j ==> (#[trigger] cut[i]) == pairs[i]);
    assert(forall|i: int| j <= i < pairs.len() - 1 ==> (#[trigger] cut[i]) == pairs[i + 1]);
    if pairs[j].0 == k {
        match find_key(cut, k) {
            None => {},
            Some(t) => {
                if t < j {
                    assert(pairs[t].0 == k);
                    assert(pairs[t].0 != pairs[j].0);
                } else {
                    assert(pairs[t + 1].0 == k);
                    assert(pairs[j].0 != pairs[t + 1].0);
                }
            },
        }
    } else {
        match find_key(pairs, k) {
            None => {
                match find_key(cut, k) {
                    None => {},
                    Some(t) => {
                        if t < j {
                            assert(pairs[t].0 == k);
                        } else {
                            assert(pairs[t + 1].0 == k);
                        }
                    },
                }
            },
            Some(t) => {
                if t < j {
                    lemma_find_key_pinned(cut, k, t);
                } else {
                    assert(t != j);
                    assert(pairs[t].0 == k);
                    assert(forall|i: int| 0 <= i < t ==> (#[trigger] pairs[i]).0 != k);
                    assert(cut[t - 1] == pairs[t]);
                    assert(forall|i: int| 0 <= i < t - 1 ==> (#[trigger] cut[i]).0 != k);
                    lemma_find_key_pinned(cut, k, t - 1);
                }
            },
        }
    }
}

} // verus!
