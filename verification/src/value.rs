//! The value model: the tree that a document decodes to.
//!
//! A document is a map from keys to values, kept in the order in which
//! the keys were first inserted. A value is a nested map, a text, or a
//! 32-bit integer. Keys and texts hold no zero byte, which is what lets
//! them be written with a NUL terminator.

use crate::keyset::{
    key_seq, keys_clone, keys_get_index, keys_get_index_of, keys_insert_full, keys_new,
};
use crate::wire::nul_free;
use indexmap::IndexSet;
use vstd::prelude::*;

verus! {

/// The mathematical value of a tree node.
pub enum Node {
    /// A nested map: its entries in order.
    Nested(Seq<(Seq<u8>, Node)>),
    /// A text, without its terminator.
    Str(Seq<u8>),
    /// A 32-bit integer.
    Int(u32),
}

/// The entries of a map, in order.
pub type Entries = Seq<(Seq<u8>, Node)>;

/// Some entry of `es` has the key `k`.
pub open spec fn has_key(es: Entries, k: Seq<u8>) -> bool {
    exists|i: int| 0 <= i < es.len() && (#[trigger] es[i]).0 == k
}

/// The position of an entry with the key `k`.
pub open spec fn position(es: Entries, k: Seq<u8>) -> int {
    choose|i: int| 0 <= i < es.len() && (#[trigger] es[i]).0 == k
}

/// The entries after inserting `k` with `v`: an entry with that key
/// keeps its place and gets the new value, a new key goes to the end.
pub open spec fn put(es: Entries, k: Seq<u8>, v: Node) -> Entries {
    if has_key(es, k) {
        es.update(position(es, k), (k, v))
    } else {
        es.push((k, v))
    }
}

/// No two entries of `es` share a key.
pub open spec fn distinct_keys(es: Entries) -> bool {
    forall|i: int, j: int|
        0 <= i < j < es.len() ==> (#[trigger] es[i]).0 != (#[trigger] es[j]).0
}

/// Keys are distinct at every level, and no key or text holds a zero byte.
pub open spec fn well_formed(es: Entries) -> bool
    decreases es,
{
    &&& distinct_keys(es)
    &&& forall|i: int|
        0 <= i < es.len() ==> nul_free((#[trigger] es[i]).0) && match es[i].1 {
            Node::Nested(c) => well_formed(c),
            Node::Str(t) => nul_free(t),
            Node::Int(_) => true,
        }
}

/// A node is well formed when its map or text is.
pub open spec fn node_well_formed(n: Node) -> bool {
    match n {
        Node::Nested(c) => well_formed(c),
        Node::Str(t) => nul_free(t),
        Node::Int(_) => true,
    }
}

/// Maps nest at most `budget` levels below `es`.
pub open spec fn nests_within(es: Entries, budget: nat) -> bool
    decreases budget,
{
    forall|i: int|
        0 <= i < es.len() ==> match (#[trigger] es[i]).1 {
            Node::Nested(c) => budget > 0 && nests_within(c, (budget - 1) as nat),
            _ => true,
        }
}

/// Inserting a well-formed value under a NUL-free key keeps the entries
/// well formed.
pub proof fn lemma_put_well_formed(es: Entries, k: Seq<u8>, v: Node)
    requires
        well_formed(es),
        nul_free(k),
        node_well_formed(v),
    ensures
        well_formed(put(es, k, v)),
{
    let out = put(es, k, v);
    if has_key(es, k) {
        let p = position(es, k);
        assert forall|i: int, j: int| 0 <= i < j < out.len() implies (#[trigger] out[i]).0 != (
        #[trigger] out[j]).0 by {
            assert(out[i].0 == es[i].0);
            assert(out[j].0 == es[j].0);
        }
        assert forall|i: int| 0 <= i < out.len() implies nul_free((#[trigger] out[i]).0)
            && node_well_formed(out[i].1) by {
            if i != p {
                assert(out[i] == es[i]);
            }
        }
    } else {
        assert forall|i: int, j: int| 0 <= i < j < out.len() implies (#[trigger] out[i]).0 != (
        #[trigger] out[j]).0 by {
            if j < es.len() {
                assert(out[i] == es[i] && out[j] == es[j]);
            } else {
                assert(out[i] == es[i]);
            }
        }
        assert forall|i: int| 0 <= i < out.len() implies nul_free((#[trigger] out[i]).0)
            && node_well_formed(out[i].1) by {
            if i < es.len() {
                assert(out[i] == es[i]);
            }
        }
    }
}

/// Inserting a value that nests within one level less keeps the bound.
pub proof fn lemma_put_nests_within(es: Entries, k: Seq<u8>, v: Node, budget: nat)
    requires
        nests_within(es, budget),
        match v {
            Node::Nested(c) => budget > 0 && nests_within(c, (budget - 1) as nat),
            _ => true,
        },
    ensures
        nests_within(put(es, k, v), budget),
{
    let out = put(es, k, v);
    assert forall|i: int| 0 <= i < out.len() implies match (#[trigger] out[i]).1 {
        Node::Nested(c) => budget > 0 && nests_within(c, (budget - 1) as nat),
        _ => true,
    } by {
        if has_key(es, k) {
            if i != position(es, k) {
                assert(out[i] == es[i]);
            }
        } else {
            if i < es.len() {
                assert(out[i] == es[i]);
            }
        }
    }
}

/// A byte string without a zero byte.
#[derive(Debug, PartialEq, Eq, Hash)]
pub struct Text {
    bytes: Vec<u8>,
}

impl View for Text {
    type V = Seq<u8>;

    closed spec fn view(&self) -> Seq<u8> {
        self.bytes@
    }
}

impl Clone for Text {
    fn clone(&self) -> (r: Self)
        ensures
            r@ == self@,
    {
        let bytes = self.bytes.clone();
        assert(bytes@ =~= self.bytes@);
        Text { bytes }
    }
}

impl Text {
    /// The text holds no zero byte.
    pub open spec fn wf(&self) -> bool {
        nul_free(self@)
    }

    /// Makes a text of `bytes`, unless one of them is zero.
    pub fn new(bytes: Vec<u8>) -> (r: Option<Text>)
        ensures
            r is Some <==> nul_free(bytes@),
            r is Some ==> r->0@ == bytes@ && r->0.wf(),
    {
        let mut i: usize = 0;
        while i < bytes.len()
            invariant
                i <= bytes@.len(),
                forall|j: int| 0 <= j < i ==> bytes@[j] != 0,
            decreases bytes.len() - i,
        {
            if bytes[i] == 0 {
                return None;
            }
            i += 1;
        }
        Some(Text { bytes })
    }

    /// Makes a text of bytes that are known to hold no zero.
    pub(crate) fn from_nul_free(bytes: Vec<u8>) -> (r: Text)
        requires
            nul_free(bytes@),
        ensures
            r@ == bytes@,
            r.wf(),
    {
        Text { bytes }
    }

    /// The bytes of the text, without a terminator.
    pub fn as_bytes(&self) -> (r: &[u8])
        ensures
            r@ == self@,
    {
        self.bytes.as_slice()
    }

    /// The number of bytes.
    pub fn len(&self) -> (n: usize)
        ensures
            n == self@.len(),
    {
        self.bytes.len()
    }
}

/// A value of the tree.
#[derive(Debug)]
pub enum Val {
    /// A nested map.
    Nested(VdfMap),
    /// A text.
    Str(Text),
    /// A 32-bit integer.
    Int(u32),
}

/// An insertion-ordered map from keys to values.
///
/// The keys live in an `IndexSet`, which keeps them unique and in order
/// and finds them by hash; the value of the key at position `i` is the
/// `i`-th of `vals`. The values stand beside the set and not inside an
/// `IndexMap`, because a value may hold a map: Verus carries the
/// collection as an opaque type with its parameters rejected for
/// recursion, and refuses a `Val` that holds an `IndexMap` of `Val`
/// ("recursively uses type ... in a non-positive position"), while a
/// `Vec` of `Val` is accepted.
#[derive(Debug)]
pub struct VdfMap {
    keys: IndexSet<Vec<u8>>,
    vals: Vec<Val>,
}

/// The node that a value stands for.
pub open spec fn val_model(v: Val) -> Node
    decreases v,
{
    match v {
        Val::Nested(m) => Node::Nested(map_model(m)),
        Val::Str(t) => Node::Str(t@),
        Val::Int(x) => Node::Int(x),
    }
}

/// The entries that a map stands for.
pub closed spec fn map_model(m: VdfMap) -> Entries
    decreases m,
{
    Seq::new(
        m.vals@.len(),
        |i: int|
            if 0 <= i < m.vals@.len() {
                (key_seq(m.keys)[i], val_model(m.vals@[i]))
            } else {
                arbitrary()
            },
    )
}

/// At every level the map holds as many keys as values.
pub open spec fn val_shape(v: Val) -> bool
    decreases v,
{
    match v {
        Val::Nested(m) => map_shape(m),
        _ => true,
    }
}

/// At every level the map holds as many keys as values.
pub closed spec fn map_shape(m: VdfMap) -> bool
    decreases m,
{
    &&& key_seq(m.keys).len() == m.vals@.len()
    &&& forall|i: int| 0 <= i < m.vals@.len() ==> val_shape(#[trigger] m.vals@[i])
}

impl View for Val {
    type V = Node;

    open spec fn view(&self) -> Node {
        val_model(*self)
    }
}

impl View for VdfMap {
    type V = Entries;

    open spec fn view(&self) -> Entries {
        map_model(*self)
    }
}

impl Clone for Val {
    /// A copy that stands for the same node, maps nested in it included.
    fn clone(&self) -> (r: Self)
        ensures
            r@ == self@,
            val_shape(*self) ==> val_shape(r),
        decreases self,
    {
        match self {
            Val::Nested(m) => Val::Nested(m.clone()),
            Val::Str(t) => Val::Str(t.clone()),
            Val::Int(x) => Val::Int(*x),
        }
    }
}

impl Clone for VdfMap {
    /// A copy that holds the same entries in the same order.
    fn clone(&self) -> (r: Self)
        ensures
            r@ == self@,
            map_shape(*self) ==> map_shape(r),
        decreases self,
    {
        let keys = keys_clone(&self.keys);
        let mut vals: Vec<Val> = Vec::new();
        let n = self.vals.len();
        let mut i: usize = 0;
        while i < n
            invariant
                n == self.vals@.len(),
                i <= n,
                vals@.len() == i,
                forall|j: int| 0 <= j < i ==> (#[trigger] vals@[j])@ == self.vals@[j]@,
                forall|j: int|
                    0 <= j < i && val_shape(self.vals@[j]) ==> val_shape(#[trigger] vals@[j]),
            decreases n - i,
        {
            let v = self.vals[i].clone();
            vals.push(v);
            i += 1;
        }
        let r = VdfMap { keys, vals };
        assert(r@ =~= self@);
        r
    }
}

impl Val {
    /// The value is sound at every level: maps hold one value per key,
    /// keys are distinct, and no key or text holds a zero byte.
    pub open spec fn wf(&self) -> bool {
        val_shape(*self) && node_well_formed(self@)
    }
}

impl VdfMap {
    /// The map is sound at every level: one value per key, distinct
    /// keys, and no zero byte in a key or a text.
    pub open spec fn wf(&self) -> bool {
        map_shape(*self) && well_formed(self@)
    }

    /// An empty map.
    pub fn new() -> (m: VdfMap)
        ensures
            m.wf(),
            m@ == Seq::<(Seq<u8>, Node)>::empty(),
    {
        let m = VdfMap { keys: keys_new(), vals: Vec::new() };
        assert(m@ =~= Seq::<(Seq<u8>, Node)>::empty());
        m
    }

    /// The number of entries.
    pub fn len(&self) -> (n: usize)
        ensures
            n == self@.len(),
    {
        self.vals.len()
    }

    /// Inserts `value` under `key`. A key that the map already holds
    /// keeps its position and has its value replaced, and the old value
    /// is returned; a new key goes to the end.
    pub fn insert(&mut self, key: Text, value: Val) -> (r: Option<Val>)
        requires
            old(self).wf(),
            key.wf(),
            value.wf(),
        ensures
            final(self).wf(),
            final(self)@ == put(old(self)@, key@, value@),
            r is Some <==> has_key(old(self)@, key@),
            r is Some ==> r->0@ == old(self)@[position(old(self)@, key@)].1 && r->0.wf(),
    {
        let ghost before = self@;
        let ghost k = key@;
        let ghost v = value@;
        proof {
            lemma_put_well_formed(before, k, v);
        }
        let (idx, fresh) = keys_insert_full(&mut self.keys, key.bytes);
        if fresh {
            proof {
                assert(!has_key(before, k)) by {
                    if has_key(before, k) {
                        let p = position(before, k);
                        assert(key_seq(old(self).keys)[p] == k);
                    }
                }
            }
            self.vals.push(value);
            proof {
                assert(self@ =~= before.push((k, v)));
                assert forall|i: int| 0 <= i < self.vals@.len() implies val_shape(
                    #[trigger] self.vals@[i],
                ) by {
                    if i < old(self).vals@.len() {
                        assert(self.vals@[i] == old(self).vals@[i]);
                    }
                }
            }
            None
        } else {
            proof {
                assert(before[idx as int].0 == k);
                assert(has_key(before, k));
                let p = position(before, k);
                if p != idx as int {
                    if p < idx as int {
                        assert(before[p].0 != before[idx as int].0);
                    } else {
                        assert(before[idx as int].0 != before[p].0);
                    }
                }
            }
            self.vals.push(value);
            let prior = self.vals.swap_remove(idx);
            proof {
                assert(self.vals@ =~= old(self).vals@.update(idx as int, value));
                assert(self@ =~= before.update(idx as int, (k, v)));
                assert forall|i: int| 0 <= i < self.vals@.len() implies val_shape(
                    #[trigger] self.vals@[i],
                ) by {
                    if i != idx as int {
                        assert(self.vals@[i] == old(self).vals@[i]);
                    }
                }
                assert(prior@ == before[idx as int].1);
                assert(val_shape(old(self).vals@[idx as int]));
                assert(node_well_formed(before[idx as int].1));
            }
            Some(prior)
        }
    }

    /// The key and value at position `i`, or nothing when `i` is not
    /// below the length. Walking `i` upwards visits the entries in order.
    pub fn get_index(&self, i: usize) -> (r: Option<(&[u8], &Val)>)
        requires
            self.wf(),
        ensures
            r is Some <==> i < self@.len(),
            match r {
                Some((k, v)) => k@ == self@[i as int].0 && v@ == self@[i as int].1 && v.wf(),
                None => true,
            },
    {
        match keys_get_index(&self.keys, i) {
            Some(k) => {
                let v = &self.vals[i];
                proof {
                    assert(val_shape(self.vals@[i as int]));
                    assert(node_well_formed(self@[i as int].1));
                }
                Some((k.as_slice(), v))
            },
            None => None,
        }
    }

    /// The value under `key`, if the map holds that key.
    pub fn get(&self, key: &[u8]) -> (r: Option<&Val>)
        requires
            self.wf(),
        ensures
            r is Some <==> has_key(self@, key@),
            r is Some ==> r->0@ == self@[position(self@, key@)].1 && r->0.wf(),
    {
        match keys_get_index_of(&self.keys, key) {
            Some(i) => {
                let v = &self.vals[i];
                proof {
                    assert(self@[i as int].0 == key@);
                    let p = position(self@, key@);
                    if p != i as int {
                        if p < i as int {
                            assert(self@[p].0 != self@[i as int].0);
                        } else {
                            assert(self@[i as int].0 != self@[p].0);
                        }
                    }
                    assert(val_shape(self.vals@[i as int]));
                    assert(node_well_formed(self@[i as int].1));
                }
                Some(v)
            },
            None => {
                proof {
                    if has_key(self@, key@) {
                        let p = position(self@, key@);
                        assert(key_seq(self.keys)[p] == key@);
                    }
                }
                None
            },
        }
    }
}

} // verus!
