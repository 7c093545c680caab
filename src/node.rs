use vstd::prelude::*;

use crate::bytes::{
    common_prefix_len, copy_range, is_common_prefix_len, lemma_common_prefix_len_unique,
};

verus! {

/// Slot-table entry of a 48-way node for a byte that has no child.
pub const NO_SLOT: u8 = 255;

/// One node of the tree, in one of four layouts by how many children it can
/// hold. Every layout carries the value of the key that ends at this node, if
/// any, and the compressed prefix: the key bytes that every key below the node
/// shares and that no ancestor has consumed.
#[derive(Debug)]
pub enum Node<T> {
    /// Up to 4 children: `index[i]` is the branch byte of the child in
    /// `pointers[i]`; a `None` pointer marks a free slot.
    Node4 {
        value: Option<T>,
        prefix: Vec<u8>,
        index: Vec<u8>,
        pointers: Vec<Option<Box<Node<T>>>>,
    },
    /// Up to 16 children, laid out as in `Node4`.
    Node16 {
        value: Option<T>,
        prefix: Vec<u8>,
        index: Vec<u8>,
        pointers: Vec<Option<Box<Node<T>>>>,
    },
    /// Up to 48 children: `index` has one entry per byte, the slot of that
    /// byte's child in `pointers`, or `NO_SLOT`.
    Node48 {
        value: Option<T>,
        prefix: Vec<u8>,
        index: Vec<u8>,
        pointers: Vec<Option<Box<Node<T>>>>,
    },
    /// One child slot per byte.
    Node256 {
        value: Option<T>,
        prefix: Vec<u8>,
        pointers: Vec<Option<Box<Node<T>>>>,
    },
}

impl<T> Node<T> {
    /// The value stored at this node.
    pub closed spec fn val(self) -> Option<T> {
        match self {
            Node::Node4 { value, .. } => value,
            Node::Node16 { value, .. } => value,
            Node::Node48 { value, .. } => value,
            Node::Node256 { value, .. } => value,
        }
    }

    /// The compressed prefix of this node.
    pub closed spec fn pre(self) -> Seq<u8> {
        match self {
            Node::Node4 { prefix, .. } => prefix@,
            Node::Node16 { prefix, .. } => prefix@,
            Node::Node48 { prefix, .. } => prefix@,
            Node::Node256 { prefix, .. } => prefix@,
        }
    }

    /// The byte table: branch bytes per slot (4 and 16), slots per byte (48).
    spec fn idx(self) -> Seq<u8> {
        match self {
            Node::Node4 { index, .. } => index@,
            Node::Node16 { index, .. } => index@,
            Node::Node48 { index, .. } => index@,
            Node::Node256 { .. } => Seq::empty(),
        }
    }

    /// The child slots.
    spec fn slots(self) -> Seq<Option<Box<Node<T>>>> {
        match self {
            Node::Node4 { pointers, .. } => pointers@,
            Node::Node16 { pointers, .. } => pointers@,
            Node::Node48 { pointers, .. } => pointers@,
            Node::Node256 { pointers, .. } => pointers@,
        }
    }

    spec fn occupied(self, i: int) -> bool {
        0 <= i < self.slots().len() && self.slots()[i] is Some
    }

    /// Slot `i` holds the child of branch byte `b` in a 4- or 16-way node.
    spec fn holds(self, i: int, b: u8) -> bool {
        self.occupied(i) && self.idx()[i] == b
    }

    /// The slot of the child for branch byte `b`, if it has one.
    spec fn slot_of(self, b: u8) -> Option<int> {
        if self is Node48 {
            let i = self.idx()[b as int] as int;
            if i < 48 && self.occupied(i) {
                Some(i)
            } else {
                None
            }
        } else if self is Node256 {
            if self.occupied(b as int) {
                Some(b as int)
            } else {
                None
            }
        } else if exists|i: int| self.holds(i, b) {
            Some(choose|i: int| self.holds(i, b))
        } else {
            None
        }
    }

    /// The child for branch byte `b`, if it has one.
    pub closed spec fn child(self, b: u8) -> Option<Node<T>> {
        match self.slot_of(b) {
            Some(i) => {
                if self.occupied(i) {
                    Some(*self.slots()[i]->Some_0)
                } else {
                    None
                }
            },
            None => None,
        }
    }

    /// The value of the key `r` below this node, where `r` is what remains
    /// of the key after this node's prefix.
    spec fn below(self, r: Seq<u8>) -> Option<T>
        decreases self,
    {
        if r.len() == 0 {
            self.val()
        } else {
            match self.child(r[0]) {
                Some(c) => {
                    let rest = r.drop_first();
                    if c.pre().is_prefix_of(rest) {
                        c.below(rest.skip(c.pre().len() as int))
                    } else {
                        None
                    }
                },
                None => None,
            }
        }
    }

    /// The value stored under `key`, a key read from this node on.
    pub closed spec fn lookup(self, key: Seq<u8>) -> Option<T> {
        if self.pre().is_prefix_of(key) {
            self.below(key.skip(self.pre().len() as int))
        } else {
            None
        }
    }

    /// How many child slots this layout has.
    spec fn cap(self) -> nat {
        match self {
            Node::Node4 { .. } => 4,
            Node::Node16 { .. } => 16,
            Node::Node48 { .. } => 48,
            Node::Node256 { .. } => 256,
        }
    }

    /// No two occupied slots of a 4- or 16-way node share a branch byte.
    spec fn bytes_distinct(self) -> bool {
        forall|i: int, j: int|
            self.occupied(i) && self.occupied(j) && i != j ==> self.idx()[i] != self.idx()[j]
    }

    /// The byte table of a 48-way node maps bytes to distinct occupied slots.
    spec fn table_ok(self) -> bool {
        &&& forall|b: int|
            #![trigger self.idx()[b]]
            0 <= b < 256 && self.idx()[b] < 48 ==> self.occupied(self.idx()[b] as int)
        &&& forall|b1: int, b2: int|
            0 <= b1 < 256 && 0 <= b2 < 256 && b1 != b2 && self.idx()[b1] < 48 ==> self.idx()[b1]
                != self.idx()[b2]
        &&& forall|i: int|
            #[trigger] self.occupied(i) ==> exists|b: int| 0 <= b < 256 && self.idx()[b] == i
    }

    /// The layout of this node alone is consistent.
    spec fn layout_ok(self) -> bool {
        &&& self.slots().len() == self.cap()
        &&& if self is Node48 {
            self.idx().len() == 256 && self.table_ok()
        } else if self is Node256 {
            true
        } else {
            self.idx().len() == self.cap() && self.bytes_distinct()
        }
    }

    /// This node and every node below it are consistent.
    pub closed spec fn wf(self) -> bool
        decreases self,
    {
        &&& self.layout_ok()
        &&& forall|i: int|
            #![trigger self.slots()[i]]
            self.occupied(i) ==> (*self.slots()[i]->Some_0).wf()
    }

    /// Every child slot is taken.
    pub closed spec fn full(self) -> bool {
        forall|i: int| 0 <= i < self.slots().len() ==> self.slots()[i] is Some
    }
}

/// `n` child slots, all free.
fn free_slots<T>(n: usize) -> (r: Vec<Option<Box<Node<T>>>>)
    ensures
        r@.len() == n,
        forall|i: int| 0 <= i < n ==> r@[i] is None,
{
    let mut r: Vec<Option<Box<Node<T>>>> = Vec::new();
    while r.len() < n
        invariant
            r@.len() <= n,
            forall|i: int| 0 <= i < r@.len() ==> r@[i] is None,
        decreases n - r@.len(),
    {
        r.push(None);
    }
    r
}

/// `n` copies of `byte`.
fn filled(byte: u8, n: usize) -> (r: Vec<u8>)
    ensures
        r@ == Seq::new(n as nat, |i: int| byte),
{
    let mut r: Vec<u8> = Vec::new();
    while r.len() < n
        invariant
            r@.len() <= n,
            r@ == Seq::new(r@.len(), |i: int| byte),
        decreases n - r@.len(),
    {
        r.push(byte);
        assert(r@ =~= Seq::new(r@.len(), |i: int| byte));
    }
    r
}

impl<T> Node<T> {
    /// A 4-way node with no value, no children and prefix `prefix`.
    spec fn is_bare(self, prefix: Seq<u8>) -> bool {
        &&& self is Node4
        &&& self.wf()
        &&& self.val() is None
        &&& self.pre() == prefix
        &&& forall|i: int| 0 <= i < 4 ==> self.slots()[i] is None
    }

    /// `self` and `other` have the same layout and the same children.
    spec fn same_table(self, other: Node<T>) -> bool {
        &&& (self is Node4 <==> other is Node4)
        &&& (self is Node16 <==> other is Node16)
        &&& (self is Node48 <==> other is Node48)
        &&& (self is Node256 <==> other is Node256)
        &&& self.idx() == other.idx()
        &&& self.slots() == other.slots()
    }

    /// Two nodes with the same layout and slots have the same children, and
    /// one is consistent if the other is.
    proof fn lemma_same_table(a: Node<T>, b: Node<T>)
        requires
            a.same_table(b),
            a.layout_ok(),
        ensures
            b.layout_ok(),
            a.wf() ==> b.wf(),
            forall|c: u8| #[trigger] a.child(c) == b.child(c),
    {
        assert(forall|i: int| a.occupied(i) == #[trigger] b.occupied(i));
        assert(forall|i: int, c: u8| a.holds(i, c) == #[trigger] b.holds(i, c));
        assert forall|c: u8| #[trigger] a.child(c) == b.child(c) by {
            if a is Node4 || a is Node16 {
                assert(a.bytes_distinct());
            }
            if exists|i: int| a.holds(i, c) {
                let i = choose|i: int| a.holds(i, c);
                assert(b.holds(i, c));
                let j = choose|j: int| b.holds(j, c);
                assert(a.holds(j, c));
            }
        }
        if a.wf() {
            assert forall|i: int| #![trigger b.slots()[i]] b.occupied(i) implies (*b.slots()[
                i
            ]->Some_0).wf() by {
                assert(a.occupied(i));
            }
        }
    }

    /// A byte has a child exactly when it has a slot.
    proof fn lemma_child_slot(a: Node<T>, b: u8)
        ensures
            a.child(b) is None <==> a.slot_of(b) is None,
    {
        if !(a is Node48) && !(a is Node256) && exists|i: int| a.holds(i, b) {
            let i = choose|i: int| a.holds(i, b);
            assert(a.holds(i, b));
        }
    }

    /// A 4-way node with no value, no children and the given prefix.
    fn bare(prefix: Vec<u8>) -> (r: Node<T>)
        ensures
            r.is_bare(prefix@),
            forall|c: u8| #[trigger] r.child(c) is None,
    {
        let r = Node::Node4 {
            value: None,
            prefix,
            index: filled(NO_SLOT, 4),
            pointers: free_slots(4),
        };
        assert(r.wf());
        assert forall|c: u8| #[trigger] r.child(c) is None by {
            if exists|i: int| r.holds(i, c) {
                let i = choose|i: int| r.holds(i, c);
                assert(r.holds(i, c));
            }
        }
        r
    }

    /// The compressed prefix of this node.
    fn prefix(&self) -> (r: &[u8])
        ensures
            r@ == self.pre(),
    {
        match self {
            Node::Node4 { prefix, .. } => prefix.as_slice(),
            Node::Node16 { prefix, .. } => prefix.as_slice(),
            Node::Node48 { prefix, .. } => prefix.as_slice(),
            Node::Node256 { prefix, .. } => prefix.as_slice(),
        }
    }

    /// The value of the key that ends at this node, if any.
    fn value(&self) -> (r: Option<&T>)
        ensures
            r == match self.val() {
                Some(v) => Some(&v),
                None => None,
            },
    {
        let value = match self {
            Node::Node4 { value, .. } => value,
            Node::Node16 { value, .. } => value,
            Node::Node48 { value, .. } => value,
            Node::Node256 { value, .. } => value,
        };
        match value {
            Some(v) => Some(v),
            None => None,
        }
    }

    /// The child slots of this node.
    fn pointers(&self) -> (r: &Vec<Option<Box<Node<T>>>>)
        ensures
            r@ == self.slots(),
    {
        match self {
            Node::Node4 { pointers, .. } => pointers,
            Node::Node16 { pointers, .. } => pointers,
            Node::Node48 { pointers, .. } => pointers,
            Node::Node256 { pointers, .. } => pointers,
        }
    }

    /// Replaces the compressed prefix.
    fn set_prefix(&mut self, p: Vec<u8>)
        ensures
            final(self).pre() == p@,
            final(self).val() == old(self).val(),
            final(self).same_table(*old(self)),
            old(self).wf() ==> final(self).wf(),
    {
        match self {
            Node::Node4 { prefix, .. } => *prefix = p,
            Node::Node16 { prefix, .. } => *prefix = p,
            Node::Node48 { prefix, .. } => *prefix = p,
            Node::Node256 { prefix, .. } => *prefix = p,
        }
        proof {
            if old(self).wf() {
                Self::lemma_same_table(*old(self), *self);
            }
        }
    }

    /// Installs `v` as the value of the key that ends at this node.
    fn set_value(&mut self, v: T)
        ensures
            final(self).val() == Some(v),
            final(self).pre() == old(self).pre(),
            final(self).same_table(*old(self)),
            old(self).wf() ==> final(self).wf(),
    {
        match self {
            Node::Node4 { value, .. } => *value = Some(v),
            Node::Node16 { value, .. } => *value = Some(v),
            Node::Node48 { value, .. } => *value = Some(v),
            Node::Node256 { value, .. } => *value = Some(v),
        }
        proof {
            if old(self).wf() {
                Self::lemma_same_table(*old(self), *self);
            }
        }
    }

    /// Whether every child slot is taken.
    fn is_full(&self) -> (r: bool)
        ensures
            r == self.full(),
    {
        let pointers = self.pointers();
        let mut i: usize = 0;
        while i < pointers.len()
            invariant
                i <= pointers@.len(),
                pointers@ == self.slots(),
                forall|j: int| 0 <= j < i ==> pointers@[j] is Some,
            decreases pointers@.len() - i,
        {
            if pointers[i].is_none() {
                return false;
            }
            i = i + 1;
        }
        true
    }

    /// The slot of the child for branch byte `byte`, if it has one.
    fn find_child(&self, byte: u8) -> (r: Option<usize>)
        requires
            self.layout_ok(),
        ensures
            match r {
                Some(i) => self.slot_of(byte) == Some(i as int),
                None => self.slot_of(byte) is None,
            },
    {
        match self {
            Node::Node48 { index, .. } => {
                let i = index[byte as usize];
                if i < 48 {
                    assert(self.idx()[byte as int] == i);
                    Some(i as usize)
                } else {
                    None
                }
            },
            Node::Node256 { pointers, .. } => {
                if pointers[byte as usize].is_some() {
                    Some(byte as usize)
                } else {
                    None
                }
            },
            Node::Node4 { index, pointers, .. } => {
                let r = scan(index, pointers, byte);
                proof { self.lemma_scan(byte, r) }
                r
            },
            Node::Node16 { index, pointers, .. } => {
                let r = scan(index, pointers, byte);
                proof { self.lemma_scan(byte, r) }
                r
            },
        }
    }

    /// What a scan of the slots of a 4- or 16-way node finds is its slot
    /// for `byte`.
    proof fn lemma_scan(self, byte: u8, r: Option<usize>)
        requires
            self.layout_ok(),
            self is Node4 || self is Node16,
            match r {
                Some(i) => self.holds(i as int, byte),
                None => forall|j: int| 0 <= j < self.slots().len() ==> !self.holds(j, byte),
            },
        ensures
            match r {
                Some(i) => self.slot_of(byte) == Some(i as int),
                None => self.slot_of(byte) is None,
            },
    {
        if let Some(i) = r {
            let j = choose|j: int| self.holds(j, byte);
            assert(self.holds(j, byte));
            assert(self.bytes_distinct());
        }
    }
}

impl<T> Node<T> {
    /// `self` and `other` are the same layout.
    spec fn same_kind(self, other: Node<T>) -> bool {
        &&& (self is Node4 <==> other is Node4)
        &&& (self is Node16 <==> other is Node16)
        &&& (self is Node48 <==> other is Node48)
        &&& (self is Node256 <==> other is Node256)
    }

    /// `b` is `a` with `child` placed in the free slot `k` under `byte`.
    spec fn added(a: Node<T>, b: Node<T>, byte: u8, child: Node<T>, k: int) -> bool {
        &&& b.same_kind(a)
        &&& b.val() == a.val()
        &&& b.pre() == a.pre()
        &&& 0 <= k < a.slots().len()
        &&& a.slots()[k] is None
        &&& b.slots() == a.slots().update(k, Some(Box::new(child)))
        &&& b.idx() == if a is Node48 {
            a.idx().update(byte as int, k as u8)
        } else if a is Node256 {
            a.idx()
        } else {
            a.idx().update(k, byte)
        }
        &&& (a is Node256 ==> k == byte)
        &&& (!(a is Node256) ==> forall|j: int| 0 <= j < k ==> a.slots()[j] is Some)
    }

    /// Adding a child under a byte that had none keeps the node consistent,
    /// gives `byte` that child and leaves every other byte's child alone.
    proof fn lemma_added(a: Node<T>, b: Node<T>, byte: u8, child: Node<T>, k: int)
        requires
            a.wf(),
            child.wf(),
            a.slot_of(byte) is None,
            Self::added(a, b, byte, child, k),
        ensures
            b.wf(),
            b.child(byte) == Some(child),
            forall|c: u8| c != byte ==> #[trigger] b.child(c) == a.child(c),
    {
        assert(forall|i: int| i != k ==> a.occupied(i) == #[trigger] b.occupied(i));
        assert(b.occupied(k));
        if a is Node48 {
            assert(a.table_ok());
            assert forall|c: int| 0 <= c < 256 && c != byte && a.idx()[c] < 48 implies a.idx()[c]
                != k by {
                assert(a.occupied(a.idx()[c] as int));
            }
            assert(b.idx()[byte as int] == k);
            assert forall|j: int| #[trigger] b.occupied(j) implies exists|c: int|
                0 <= c < 256 && b.idx()[c] == j by {
                if j != k {
                    assert(a.occupied(j));
                    let c = choose|c: int| 0 <= c < 256 && a.idx()[c] == j;
                    assert(b.idx()[c] == j);
                } else {
                    assert(b.idx()[byte as int] == j);
                }
            }
            assert(b.table_ok());
            assert forall|c: u8| c != byte implies #[trigger] b.child(c) == a.child(c) by {
                assert(b.idx()[c as int] == a.idx()[c as int]);
            }
        } else if a is Node256 {
        } else {
            assert(a.bytes_distinct());
            assert(forall|i: int| #![trigger a.holds(i, byte)] !a.holds(i, byte));
            assert forall|i: int, j: int|
                b.occupied(i) && b.occupied(j) && i != j implies b.idx()[i] != b.idx()[j] by {
                if i != k && j != k {
                    assert(a.occupied(i) && a.occupied(j));
                } else if i == k {
                    assert(!a.holds(j, byte));
                } else {
                    assert(!a.holds(i, byte));
                }
            }
            assert(b.bytes_distinct());
            assert(b.holds(k, byte));
            let kk = choose|i: int| b.holds(i, byte);
            assert(b.holds(kk, byte));
            assert forall|c: u8| c != byte implies #[trigger] b.child(c) == a.child(c) by {
                assert(forall|i: int| a.holds(i, c) == #[trigger] b.holds(i, c));
                if exists|i: int| a.holds(i, c) {
                    let i = choose|i: int| a.holds(i, c);
                    assert(b.holds(i, c));
                    let j = choose|j: int| b.holds(j, c);
                    assert(a.holds(j, c));
                }
            }
        }
        assert forall|i: int| #![trigger b.slots()[i]] b.occupied(i) implies (*b.slots()[
            i
        ]->Some_0).wf() by {
            if i != k {
                assert(a.occupied(i));
            }
        }
        assert(b.layout_ok());
    }

    /// Installs `child` under branch byte `byte`, which has no child yet.
    fn add_child(&mut self, byte: u8, child: Node<T>)
        requires
            old(self).wf(),
            child.wf(),
            old(self).child(byte) is None,
            (*old(self)) is Node256 || !old(self).full(),
        ensures
            final(self).wf(),
            final(self).same_kind(*old(self)),
            final(self).val() == old(self).val(),
            final(self).pre() == old(self).pre(),
            final(self).child(byte) == Some(child),
            forall|c: u8| c != byte ==> #[trigger] final(self).child(c) == old(self).child(c),
            exists|k: int| Self::added(*old(self), *final(self), byte, child, k),
    {
        proof {
            Self::lemma_child_slot(*old(self), byte);
        }
        let ghost g = child;
        let k: usize;
        match self {
            Node::Node4 { index, pointers, .. } => {
                k = first_free(pointers);
                index[k] = byte;
                pointers[k] = Some(Box::new(child));
            },
            Node::Node16 { index, pointers, .. } => {
                k = first_free(pointers);
                index[k] = byte;
                pointers[k] = Some(Box::new(child));
            },
            Node::Node48 { index, pointers, .. } => {
                k = first_free(pointers);
                index[byte as usize] = k as u8;
                pointers[k] = Some(Box::new(child));
            },
            Node::Node256 { pointers, .. } => {
                k = byte as usize;
                pointers[k] = Some(Box::new(child));
            },
        }
        proof {
            assert(Self::added(*old(self), *self, byte, g, k as int));
            Self::lemma_added(*old(self), *self, byte, g, k as int);
        }
    }
}

impl<T> Node<T> {
    /// `b` is a larger layout than `a` holding the same value, prefix and
    /// children, with room for one more child.
    spec fn grown_from(b: Node<T>, a: Node<T>) -> bool {
        &&& b.wf()
        &&& b.val() == a.val()
        &&& b.pre() == a.pre()
        &&& forall|c: u8| #[trigger] b.child(c) == a.child(c)
        &&& b is Node256 || !b.full()
        &&& b.next_kind_of(a)
        &&& (a is Node4 ==> {
            &&& b.slots().subrange(0, 4) == a.slots()
            &&& b.idx().subrange(0, 4) == a.idx()
            &&& forall|i: int| 4 <= i < 16 ==> b.slots()[i] is None
        })
        &&& (a is Node16 ==> {
            &&& b.slots().subrange(0, 16) == a.slots()
            &&& forall|i: int| 16 <= i < 48 ==> b.slots()[i] is None
            &&& forall|i: int| #[trigger] a.occupied(i) ==> b.idx()[a.idx()[i] as int] == i
            &&& forall|c: int|
                0 <= c < 256 && #[trigger] b.idx()[c] >= 48 ==> b.idx()[c] == NO_SLOT
        })
        &&& (a is Node48 ==> forall|c: int|
            0 <= c < 256 ==> #[trigger] b.slots()[c] == if a.idx()[c] < 48 {
                a.slots()[a.idx()[c] as int]
            } else {
                None
            })
    }

    /// `self` has the layout that follows that of `a`.
    spec fn next_kind_of(self, a: Node<T>) -> bool {
        &&& (a is Node4 ==> self is Node16)
        &&& (a is Node16 ==> self is Node48)
        &&& (a is Node48 ==> self is Node256)
    }

    /// Two 4- or 16-way nodes whose occupied slots agree have the same children.
    proof fn lemma_same_holds(a: Node<T>, b: Node<T>)
        requires
            a.wf(),
            !(a is Node48) && !(a is Node256),
            !(b is Node48) && !(b is Node256),
            b.idx().len() == b.cap(),
            b.slots().len() == b.cap(),
            forall|i: int, c: u8| a.holds(i, c) == #[trigger] b.holds(i, c),
            forall|i: int| #[trigger] b.occupied(i) ==> a.occupied(i) && b.slots()[i] == a.slots()[i],
        ensures
            b.wf(),
            forall|c: u8| #[trigger] b.child(c) == a.child(c),
    {
        assert(a.bytes_distinct());
        assert forall|i: int, j: int|
            b.occupied(i) && b.occupied(j) && i != j implies b.idx()[i] != b.idx()[j] by {
            assert(b.holds(i, b.idx()[i]) && b.holds(j, b.idx()[j]));
            assert(a.holds(i, b.idx()[i]) && a.holds(j, b.idx()[j]));
        }
        assert forall|c: u8| #[trigger] b.child(c) == a.child(c) by {
            if exists|i: int| a.holds(i, c) {
                let i = choose|i: int| a.holds(i, c);
                assert(b.holds(i, c));
                let j = choose|j: int| b.holds(j, c);
                assert(a.holds(j, c));
            }
        }
        assert forall|i: int| #![trigger b.slots()[i]] b.occupied(i) implies (*b.slots()[
            i
        ]->Some_0).wf() by {
            assert(a.occupied(i));
        }
    }

    /// The same value, prefix and children in the next larger layout.
    fn grown(n: Node<T>) -> (r: Node<T>)
        requires
            n.wf(),
            !(n is Node256),
        ensures
            Self::grown_from(r, n),
    {
        let ghost g = n;
        match n {
            Node::Node4 { value, prefix, mut index, mut pointers } => {
                while pointers.len() < 16
                    invariant
                        4 <= pointers@.len() <= 16,
                        pointers@.len() == index@.len(),
                        pointers@.subrange(0, 4) == g.slots(),
                        index@.subrange(0, 4) == g.idx(),
                        forall|i: int| 4 <= i < pointers@.len() ==> pointers@[i] is None,
                    decreases 16 - pointers@.len(),
                {
                    pointers.push(None);
                    index.push(0);
                }
                let r = Node::Node16 { value, prefix, index, pointers };
                proof {
                    assert(forall|i: int| 0 <= i < 4 ==> r.slots()[i] == g.slots()[i] && r.idx()[i]
                        == g.idx()[i]);
                    assert(forall|i: int, c: u8| g.holds(i, c) == #[trigger] r.holds(i, c));
                    Self::lemma_same_holds(g, r);
                    assert(r.slots()[15] is None);
                    assert(r.slots().subrange(0, 4) =~= g.slots());
                    assert(r.idx().subrange(0, 4) =~= g.idx());
                }
                r
            },
            Node::Node16 { value, prefix, index, mut pointers } => {
                let mut table = filled(NO_SLOT, 256);
                let mut i: usize = 0;
                while i < 16
                    invariant
                        i <= 16,
                        g is Node16,
                        g.wf(),
                        index@ == g.idx(),
                        pointers@ == g.slots(),
                        table@.len() == 256,
                        forall|b: int|
                            0 <= b < 256 && #[trigger] table@[b] < 48 ==> table@[b] < i && g.holds(
                                table@[b] as int,
                                b as u8,
                            ),
                        forall|j: int| 0 <= j < i && g.occupied(j) ==> table@[g.idx()[j] as int] == j,
                        forall|c: int| 0 <= c < 256 && #[trigger] table@[c] >= 48 ==> table@[c] == NO_SLOT,
                    decreases 16 - i,
                {
                    if pointers[i].is_some() {
                        proof {
                            assert(g.bytes_distinct());
                            assert forall|j: int| 0 <= j < i && g.occupied(j) implies g.idx()[j]
                                != g.idx()[i as int] by {
                                assert(g.occupied(i as int));
                            }
                        }
                        table[index[i] as usize] = i as u8;
                    }
                    i = i + 1;
                }
                while pointers.len() < 48
                    invariant
                        16 <= pointers@.len() <= 48,
                        pointers@.subrange(0, 16) == g.slots(),
                        forall|j: int| 16 <= j < pointers@.len() ==> pointers@[j] is None,
                    decreases 48 - pointers@.len(),
                {
                    pointers.push(None);
                }
                let r = Node::Node48 { value, prefix, index: table, pointers };
                proof {
                    assert(forall|j: int| 0 <= j < 16 ==> r.slots()[j] == g.slots()[j]);
                    assert(forall|j: int| #[trigger] r.occupied(j) ==> 0 <= j < 16 && g.occupied(j));
                    assert forall|b1: int, b2: int|
                        0 <= b1 < 256 && 0 <= b2 < 256 && b1 != b2 && r.idx()[b1] < 48 implies r.idx()[b1]
                        != r.idx()[b2] by {
                        assert(g.holds(r.idx()[b1] as int, b1 as u8));
                        if r.idx()[b2] < 48 {
                            assert(g.holds(r.idx()[b2] as int, b2 as u8));
                        }
                    }
                    assert(r.table_ok());
                    assert(g.bytes_distinct());
                    assert forall|c: u8| #[trigger] r.child(c) == g.child(c) by {
                        if exists|j: int| g.holds(j, c) {
                            let j = choose|j: int| g.holds(j, c);
                            assert(g.holds(j, c));
                            assert(table@[c as int] == j);
                        } else {
                            if table@[c as int] < 48 {
                                assert(g.holds(table@[c as int] as int, c));
                            }
                        }
                    }
                    assert forall|j: int| #![trigger r.slots()[j]] r.occupied(j) implies (*r.slots()[
                        j
                    ]->Some_0).wf() by {
                        assert(g.occupied(j));
                    }
                    assert(r.slots()[47] is None);
                    assert(r.slots().subrange(0, 16) =~= g.slots());
                }
                r
            },
            Node::Node48 { value, prefix, index, mut pointers } => {
                let mut direct: Vec<Option<Box<Node<T>>>> = free_slots(256);
                let mut b: usize = 0;
                while b < 256
                    invariant
                        b <= 256,
                        g is Node48,
                        g.wf(),
                        index@ == g.idx(),
                        pointers@.len() == 48,
                        direct@.len() == 256,
                        forall|c: int|
                            0 <= c < b ==> #[trigger] direct@[c] == if g.idx()[c] < 48 {
                                g.slots()[g.idx()[c] as int]
                            } else {
                                None
                            },
                        forall|c: int| b <= c < 256 ==> #[trigger] direct@[c] is None,
                        forall|c: int|
                            b <= c < 256 && #[trigger] g.idx()[c] < 48 ==> pointers@[g.idx()[c] as int]
                                == g.slots()[g.idx()[c] as int],
                    decreases 256 - b,
                {
                    let i = index[b];
                    if i < 48 {
                        proof {
                            assert(g.table_ok());
                        }
                        direct[b] = pointers[i as usize].take();
                    }
                    b = b + 1;
                }
                let r = Node::Node256 { value, prefix, pointers: direct };
                proof {
                    assert(g.table_ok());
                    assert forall|c: u8| #[trigger] r.child(c) == g.child(c) by {
                        if g.idx()[c as int] < 48 {
                            assert(g.occupied(g.idx()[c as int] as int));
                        }
                    }
                    assert forall|j: int| #![trigger r.slots()[j]] r.occupied(j) implies (*r.slots()[
                        j
                    ]->Some_0).wf() by {
                        assert(g.occupied(g.idx()[j] as int));
                    }
                }
                r
            },
            Node::Node256 { value, prefix, pointers } => Node::Node256 { value, prefix, pointers },
        }
    }

    /// Moves this node to the next larger layout, keeping its value, prefix
    /// and children.
    fn grow(&mut self)
        requires
            old(self).wf(),
            !((*old(self)) is Node256),
        ensures
            Self::grown_from(*final(self), *old(self)),
    {
        let mut n = Node::bare(Vec::new());
        std::mem::swap(self, &mut n);
        *self = Self::grown(n);
    }
}

impl<T> Node<T> {
    /// The value below a node: its own for an empty rest, else what the
    /// child for the first byte holds for the bytes after it.
    proof fn lemma_below(n: Node<T>, r: Seq<u8>)
        ensures
            n.below(r) == if r.len() == 0 {
                n.val()
            } else {
                match n.child(r[0]) {
                    Some(c) => c.lookup(r.drop_first()),
                    None => None,
                }
            },
    {
    }

    /// A node without children holds its value under its prefix alone.
    proof fn lemma_leaf(l: Node<T>)
        requires
            forall|c: u8| #[trigger] l.child(c) is None,
        ensures
            forall|k: Seq<u8>| #[trigger] l.lookup(k) == if k == l.pre() { l.val() } else { None },
    {
        assert forall|k: Seq<u8>| #[trigger] l.lookup(k) == if k == l.pre() {
            l.val()
        } else {
            None
        } by {
            if l.pre().is_prefix_of(k) {
                Self::lemma_below(l, k.skip(l.pre().len() as int));
                if k.len() == l.pre().len() {
                    assert(k =~= l.pre());
                }
            }
        }
    }

    /// Nodes with the same prefix, value and children hold the same keys.
    proof fn lemma_lookup_same(a: Node<T>, b: Node<T>)
        requires
            a.val() == b.val(),
            forall|c: u8| #[trigger] a.child(c) == b.child(c),
        ensures
            forall|r: Seq<u8>| #[trigger] a.below(r) == b.below(r),
    {
        assert forall|r: Seq<u8>| #[trigger] a.below(r) == b.below(r) by {
            Self::lemma_below(a, r);
            Self::lemma_below(b, r);
        }
    }

    /// Storing the value of the key `s` at the node whose prefix is `s`.
    proof fn lemma_set_here(o: Node<T>, f: Node<T>, s: Seq<u8>, v: T)
        requires
            o.pre() == s,
            f.pre() == s,
            f.val() == Some(v),
            forall|c: u8| #[trigger] f.child(c) == o.child(c),
        ensures
            forall|k: Seq<u8>| #[trigger] f.lookup(k) == if k == s { Some(v) } else { o.lookup(k) },
    {
        assert forall|k: Seq<u8>| #[trigger] f.lookup(k) == if k == s {
            Some(v)
        } else {
            o.lookup(k)
        } by {
            if s.is_prefix_of(k) {
                let r = k.skip(s.len() as int);
                Self::lemma_below(o, r);
                Self::lemma_below(f, r);
                if r.len() == 0 {
                    assert(k =~= s);
                }
            }
        }
    }

    /// Storing the key `s` below the child for the byte after the prefix:
    /// `nc` is the new child for that byte, holding what the old one held and
    /// the rest of `s`.
    proof fn lemma_descend(o: Node<T>, f: Node<T>, s: Seq<u8>, v: T, nc: Node<T>)
        requires
            o.pre().is_prefix_of(s),
            s.len() > o.pre().len(),
            f.pre() == o.pre(),
            f.val() == o.val(),
            forall|c: u8| c != s[o.pre().len() as int] ==> #[trigger] f.child(c) == o.child(c),
            f.child(s[o.pre().len() as int]) == Some(nc),
            forall|k: Seq<u8>| #[trigger]
                nc.lookup(k) == if k == s.skip(o.pre().len() as int + 1) {
                    Some(v)
                } else {
                    match o.child(s[o.pre().len() as int]) {
                        Some(c) => c.lookup(k),
                        None => None,
                    }
                },
        ensures
            forall|k: Seq<u8>| #[trigger] f.lookup(k) == if k == s { Some(v) } else { o.lookup(k) },
    {
        let p = o.pre();
        let n = p.len() as int;
        assert forall|k: Seq<u8>| #[trigger] f.lookup(k) == if k == s {
            Some(v)
        } else {
            o.lookup(k)
        } by {
            if p.is_prefix_of(k) {
                let r = k.skip(n);
                Self::lemma_below(o, r);
                Self::lemma_below(f, r);
                if r.len() > 0 {
                    assert(r[0] == k[n]);
                    assert(r.drop_first() =~= k.skip(n + 1));
                    if k[n] == s[n] && k.skip(n + 1) == s.skip(n + 1) {
                        assert forall|i: int| 0 <= i < k.len() implies k[i] == s[i] by {
                            if i < n {
                                assert(k[i] == p[i] && s[i] == p[i]);
                            } else if i > n {
                                assert(k[i] == k.skip(n + 1)[i - n - 1]);
                            }
                        }
                        assert(k =~= s);
                    }
                }
            } else {
                assert(k != s);
            }
        }
    }

    /// Splitting the prefix of `o` after its first `c` bytes, where the key
    /// `s` leaves it: `f` keeps the shared bytes and holds `o2` (the rest of
    /// `o`) under the byte where they part, and the value of `s` either
    /// itself, when `s` ends there, or in the leaf `l` under `s`'s next byte.
    proof fn lemma_split(o: Node<T>, f: Node<T>, s: Seq<u8>, v: T, c: int, o2: Node<T>, l: Node<T>)
        requires
            0 <= c < o.pre().len(),
            c <= s.len(),
            s.take(c) == o.pre().take(c),
            c < s.len() ==> s[c] != o.pre()[c],
            f.pre() == o.pre().take(c),
            f.val() == if c == s.len() { Some(v) } else { None },
            o2.pre() == o.pre().skip(c + 1),
            o2.val() == o.val(),
            forall|b: u8| #[trigger] o2.child(b) == o.child(b),
            f.child(o.pre()[c]) == Some(o2),
            c < s.len() ==> f.child(s[c]) == Some(l),
            forall|b: u8|
                b != o.pre()[c] && (c < s.len() ==> b != s[c]) ==> #[trigger] f.child(b) is None,
            c < s.len() ==> forall|k: Seq<u8>| #[trigger]
                l.lookup(k) == if k == s.skip(c + 1) {
                    Some(v)
                } else {
                    None
                },
        ensures
            forall|k: Seq<u8>| #[trigger] f.lookup(k) == if k == s { Some(v) } else { o.lookup(k) },
    {
        let p = o.pre();
        Self::lemma_lookup_same(o, o2);
        assert forall|k: Seq<u8>| #[trigger] f.lookup(k) == if k == s {
            Some(v)
        } else {
            o.lookup(k)
        } by {
            if p.take(c).is_prefix_of(k) {
                let r = k.skip(c);
                Self::lemma_below(f, r);
                if r.len() == 0 {
                    if c == s.len() {
                        assert(k =~= k.subrange(0, c));
                        assert(s =~= s.take(c));
                        assert(k =~= s);
                    }
                    assert(!p.is_prefix_of(k));
                } else {
                    assert(r[0] == k[c]);
                    let r1 = r.drop_first();
                    assert(r1 =~= k.skip(c + 1));
                    if k[c] == p[c] {
                        assert(k != s);
                        if p.is_prefix_of(k) {
                            assert(o2.pre().is_prefix_of(r1));
                            assert(r1.skip(o2.pre().len() as int) =~= k.skip(p.len() as int));
                        } else {
                            if o2.pre().is_prefix_of(r1) {
                                assert forall|i: int| 0 <= i < p.len() implies p[i] == k[i] by {
                                    if i < c {
                                        assert(p.take(c)[i] == k[i]);
                                    } else if i > c {
                                        assert(o2.pre()[i - c - 1] == r1[i - c - 1]);
                                    }
                                }
                                assert(p =~= k.subrange(0, p.len() as int));
                            }
                        }
                    } else {
                        assert(!p.is_prefix_of(k)) by {
                            assert(p[c] != k[c]);
                        }
                        if c < s.len() && k[c] == s[c] && r1 == s.skip(c + 1) {
                            assert forall|i: int| 0 <= i < k.len() implies k[i] == s[i] by {
                                if i < c {
                                    assert(p.take(c)[i] == k[i]);
                                    assert(s.take(c)[i] == s[i]);
                                } else if i > c {
                                    assert(r1[i - c - 1] == k[i]);
                                }
                            }
                            assert(k =~= s);
                        }
                    }
                }
            } else {
                assert(k != s) by {
                    if k == s {
                        assert(p.take(c) =~= k.subrange(0, c));
                    }
                }
                if p.is_prefix_of(k) {
                    assert(p.take(c) =~= k.subrange(0, c));
                }
            }
        }
    }
}

impl<T> Node<T> {
    /// A 4-way node without children that holds `v` under the prefix `prefix`.
    pub closed spec fn is_leaf(self, prefix: Seq<u8>, v: T) -> bool {
        &&& self is Node4
        &&& self.val() == Some(v)
        &&& self.pre() == prefix
        &&& forall|c: u8| #[trigger] self.child(c) is None
    }

    /// How `self` comes from `o` by storing `v` under the key `s`, read from
    /// `o` on, besides which keys it holds: where `s` is `o`'s prefix, only
    /// the value changes; where `s` leaves the prefix after `c` bytes, a new
    /// 4-way node takes `o`'s place, with the shared bytes as its prefix, `o`
    /// (shortened past the byte where they part) under that byte, and `v`
    /// itself or in a leaf under `s`'s byte; where `s` goes on past the
    /// prefix, the node keeps its value, prefix and the other bytes'
    /// children, and keeps its layout unless a new child had to enter a full
    /// node, which then has the next layout; such a new child is a leaf.
    pub closed spec fn placed(self, o: Node<T>, s: Seq<u8>, v: T) -> bool {
        &&& o.pre() == s ==> self.placed_here(o, v)
        &&& forall|c: int|
            #[trigger] is_common_prefix_len(s, o.pre(), c) && c < o.pre().len() ==> self.placed_split(
                o,
                s,
                v,
                c,
            )
        &&& o.pre().is_prefix_of(s) && s.len() > o.pre().len() ==> self.placed_below(o, s, v)
    }

    /// `v` became the value of `o` itself.
    spec fn placed_here(self, o: Node<T>, v: T) -> bool {
        &&& self.pre() == o.pre()
        &&& self.val() == Some(v)
        &&& self.same_table(o)
    }

    /// `o`'s prefix was split after `c` bytes to store `v` under `s`.
    spec fn placed_split(self, o: Node<T>, s: Seq<u8>, v: T, c: int) -> bool {
        let p = o.pre();
        let kept = self.child(p[c])->Some_0;
        &&& self is Node4
        &&& self.pre() == p.take(c)
        &&& self.val() == if c == s.len() { Some(v) } else { None }
        &&& self.child(p[c]) is Some
        &&& kept.pre() == p.skip(c + 1)
        &&& kept.val() == o.val()
        &&& kept.same_table(o)
        &&& c < s.len() ==> self.child(s[c]) is Some
        &&& c < s.len() ==> self.child(s[c])->Some_0.is_leaf(s.skip(c + 1), v)
        &&& forall|b: u8|
            b != p[c] && (c < s.len() ==> b != s[c]) ==> #[trigger] self.child(b) is None
    }

    /// `v` was stored under `s` below the branch byte after `o`'s prefix.
    spec fn placed_below(self, o: Node<T>, s: Seq<u8>, v: T) -> bool {
        let n = o.pre().len() as int;
        &&& self.pre() == o.pre()
        &&& self.val() == o.val()
        &&& forall|b: u8| b != s[n] ==> #[trigger] self.child(b) == o.child(b)
        &&& self.child(s[n]) is Some
        &&& o.child(s[n]) is Some ==> self.same_kind(o)
        &&& o.child(s[n]) is None ==> self.child(s[n])->Some_0.is_leaf(s.skip(n + 1), v)
        &&& o.child(s[n]) is None && o.full() ==> self.next_kind_of(o)
        &&& o.child(s[n]) is None && !o.full() ==> self.same_kind(o)
    }
}

impl<T> Node<T> {
    /// Replacing the child in occupied slot `i` by `nc` changes the child of
    /// that slot's byte alone.
    proof fn lemma_replaced(a: Node<T>, b: Node<T>, i: int, nc: Node<T>)
        requires
            a.wf(),
            a.occupied(i),
            nc.wf(),
            b.same_kind(a),
            b.idx() == a.idx(),
            b.slots() == a.slots().update(i, Some(Box::new(nc))),
        ensures
            b.wf(),
            forall|c: u8| #[trigger] b.slot_of(c) == a.slot_of(c),
            forall|c: u8|
                #[trigger] b.child(c) == if a.slot_of(c) == Some(i) {
                    Some(nc)
                } else {
                    a.child(c)
                },
    {
        assert(forall|j: int| #[trigger] b.occupied(j) == a.occupied(j));
        assert(forall|j: int, c: u8| #[trigger] b.holds(j, c) == a.holds(j, c));
        if !(a is Node48) && !(a is Node256) {
            assert(a.bytes_distinct());
            assert forall|c: u8| #[trigger] b.slot_of(c) == a.slot_of(c) by {
                if exists|j: int| a.holds(j, c) {
                    let j = choose|j: int| a.holds(j, c);
                    assert(b.holds(j, c));
                    let j2 = choose|j2: int| b.holds(j2, c);
                    assert(a.holds(j2, c));
                }
            }
            assert(b.bytes_distinct());
        } else if a is Node48 {
            assert(a.table_ok());
            assert(b.table_ok());
        }
        assert forall|j: int| #![trigger b.slots()[j]] b.occupied(j) implies (*b.slots()[
            j
        ]->Some_0).wf() by {
            if j != i {
                assert(a.occupied(j));
            }
        }
        assert forall|c: u8| #[trigger]
            b.child(c) == if a.slot_of(c) == Some(i) {
                Some(nc)
            } else {
                a.child(c)
            } by {
            assert(b.slot_of(c) == a.slot_of(c));
        }
    }

    /// The child slots of this node, to change in place.
    fn pointers_mut(&mut self) -> (r: &mut Vec<Option<Box<Node<T>>>>)
        ensures
            r@ == old(self).slots(),
            final(self).slots() == final(r)@,
            final(self).same_kind(*old(self)),
            final(self).val() == old(self).val(),
            final(self).pre() == old(self).pre(),
            final(self).idx() == old(self).idx(),
    {
        match self {
            Node::Node4 { pointers, .. } => pointers,
            Node::Node16 { pointers, .. } => pointers,
            Node::Node48 { pointers, .. } => pointers,
            Node::Node256 { pointers, .. } => pointers,
        }
    }

    /// Stores `value` under `key`, of which this node is reached after the
    /// first `depth` bytes.
    fn insert(&mut self, key: &[u8], depth: usize, value: T)
        requires
            old(self).wf(),
            depth <= key@.len(),
        ensures
            final(self).wf(),
            forall|k: Seq<u8>| #[trigger]
                final(self).lookup(k) == if k == key@.skip(depth as int) {
                    Some(value)
                } else {
                    old(self).lookup(k)
                },
            final(self).placed(*old(self), key@.skip(depth as int), value),
        decreases *old(self),
    {
        let ghost o = *self;
        let ghost s = key@.skip(depth as int);
        let plen = self.prefix().len();
        let rest = vstd::slice::slice_subrange(key, depth, key.len());
        assert(rest@ =~= s);
        let common = common_prefix_len(rest, self.prefix());
        proof {
            assert forall|c: int| #[trigger] is_common_prefix_len(s, o.pre(), c) implies c
                == common by {
                lemma_common_prefix_len_unique(s, o.pre(), c, common as int);
            }
            if o.pre().is_prefix_of(s) {
                assert(s.take(plen as int) =~= o.pre().take(plen as int));
                assert(is_common_prefix_len(s, o.pre(), plen as int));
            }
        }
        if common == plen && depth + plen == key.len() {
            // the key ends at this node
            self.set_value(value);
            proof {
                assert(s =~= s.take(common as int));
                assert(o.pre() =~= o.pre().take(common as int));
                Self::lemma_same_table(o, *self);
                Self::lemma_set_here(o, *self, s, value);
                assert(self.placed(o, s, value));
            }
            return;
        }
        if common < plen {
            // the key leaves the prefix partway: split it
            let shared = copy_range(self.prefix(), 0, common);
            let old_byte = self.prefix()[common];
            let old_rest = copy_range(self.prefix(), common + 1, plen);
            let mut node = Node::bare(shared);
            std::mem::swap(self, &mut node);
            node.set_prefix(old_rest);
            let ghost o2 = node;
            let ghost f1 = *self;
            proof {
                Self::lemma_same_table(o, o2);
                assert(self.slots()[0] is None);
            }
            self.add_child(old_byte, node);
            if depth + common == key.len() {
                let ghost f2 = *self;
                self.set_value(value);
                proof {
                    Self::lemma_same_table(f2, *self);
                    assert(o.pre().take(common as int) =~= shared@);
                    Self::lemma_split(o, *self, s, value, common as int, o2, o2);
                    assert(self.placed(o, s, value));
                }
            } else {
                let new_byte = key[depth + common];
                let mut leaf = Node::bare(copy_range(key, depth + common + 1, key.len()));
                let ghost l0 = leaf;
                leaf.set_value(value);
                proof {
                    Self::lemma_same_table(l0, leaf);
                    Self::lemma_leaf(leaf);
                    assert(leaf.pre() =~= s.skip(common as int + 1));
                    let k = choose|k: int| Self::added(f1, *self, old_byte, o2, k);
                    assert(self.slots()[if k == 0 { 1int } else { 0int }] is None);
                    assert(s[common as int] != o.pre()[common as int]);
                }
                let ghost lg = leaf;
                self.add_child(new_byte, leaf);
                proof {
                    assert(o.pre().take(common as int) =~= shared@);
                    Self::lemma_split(o, *self, s, value, common as int, o2, lg);
                    assert(lg.is_leaf(s.skip(common as int + 1), value));
                    assert(self.placed(o, s, value));
                }
            }
            return;
        }
        // the whole prefix matches: go on at the byte after it
        let d = depth + plen;
        let b = key[d];
        proof {
            assert(o.pre() =~= s.take(plen as int));
            assert(o.pre().is_prefix_of(s));
            assert(s[plen as int] == b);
            assert(key@.skip(d + 1) =~= s.skip(plen as int + 1));
        }
        match self.find_child(b) {
            Some(slot) => {
                let slots = self.pointers_mut();
                let mut c = slots[slot].take().unwrap();
                (&mut *c).insert(key, d + 1, value);
                let ghost c1 = *c;
                slots[slot] = Some(c);
                proof {
                    Self::lemma_child_slot(o, b);
                    assert(self.slots() =~= o.slots().update(slot as int, Some(Box::new(c1))));
                    Self::lemma_replaced(o, *self, slot as int, c1);
                    Self::lemma_descend(o, *self, s, value, c1);
                    assert(self.placed(o, s, value));
                }
            },
            None => {
                if self.is_full() {
                    self.grow();
                }
                let ghost g1 = *self;
                let mut leaf = Node::bare(copy_range(key, d + 1, key.len()));
                let ghost l0 = leaf;
                leaf.set_value(value);
                proof {
                    Self::lemma_child_slot(o, b);
                    Self::lemma_same_table(l0, leaf);
                    Self::lemma_leaf(leaf);
                }
                let ghost lg = leaf;
                self.add_child(b, leaf);
                proof {
                    Self::lemma_descend(o, *self, s, value, lg);
                    assert(lg.is_leaf(s.skip(plen as int + 1), value));
                    assert(o.full() ==> g1.next_kind_of(o));
                    assert(self.placed(o, s, value));
                }
            },
        }
    }
}

impl<T> Node<T> {
    /// Stores `value` under `key`, replacing the value stored there before.
    pub fn set(&mut self, key: Vec<u8>, value: T)
        requires
            old(self).wf(),
        ensures
            final(self).wf(),
            final(self)@ == old(self)@.insert(key@, value),
            final(self).placed(*old(self), key@, value),
    {
        let ghost o = *self;
        self.insert(key.as_slice(), 0, value);
        proof {
            assert(key@.skip(0) =~= key@);
            assert(self@ =~= o@.insert(key@, value));
        }
    }

    /// The value stored under `key`, if any.
    pub fn get(&self, key: &[u8]) -> (r: Option<&T>)
        requires
            self.wf(),
        ensures
            r == if self@.contains_key(key@) {
                Some(&self@[key@])
            } else {
                None
            },
        decreases self,
    {
        proof {
            assert(self@.contains_key(key@) == self.lookup(key@) is Some);
        }
        let p = self.prefix();
        let n = p.len();
        if n > key.len() || common_prefix_len(key, p) < n {
            proof {
                if self.pre().is_prefix_of(key@) {
                    assert(key@.take(n as int) =~= self.pre().take(n as int));
                }
            }
            return None;
        }
        proof {
            assert(self.pre() =~= self.pre().take(n as int));
            assert(self.pre().is_prefix_of(key@));
            Self::lemma_below(*self, key@.skip(n as int));
        }
        if n == key.len() {
            return self.value();
        }
        proof {
            assert(key@.skip(n as int)[0] == key@[n as int]);
            assert(key@.skip(n as int).drop_first() =~= key@.subrange(n + 1, key@.len() as int));
            Self::lemma_child_slot(*self, key[n as int]);
        }
        match self.find_child(key[n]) {
            None => None,
            Some(i) => {
                let pointers = self.pointers();
                match &pointers[i] {
                    Some(c) => c.get(vstd::slice::slice_subrange(key, n + 1, key.len())),
                    None => None,
                }
            },
        }
    }
}

impl<T: Clone> Node<T> {
    /// A copy of these child slots, each child copied in full.
    fn copy_slots(&self, pointers: &Vec<Option<Box<Node<T>>>>) -> (r: Vec<Option<Box<Node<T>>>>)
        requires
            pointers@ == self.slots(),
        ensures
            r@.len() == pointers@.len(),
        decreases self, 0nat,
    {
        let mut r: Vec<Option<Box<Node<T>>>> = Vec::new();
        let mut i: usize = 0;
        while i < pointers.len()
            invariant
                i <= pointers@.len(),
                r@.len() == i,
                pointers@ == self.slots(),
            decreases pointers@.len() - i,
        {
            match &pointers[i] {
                Some(c) => {
                    proof {
                        assert(decreases_to!(self, 0nat => **c, 1nat)) by {
                            assert(self.occupied(i as int));
                        }
                    }
                    r.push(Some(Box::new(c.deep_copy())));
                },
                None => r.push(None),
            }
            i = i + 1;
        }
        r
    }

    /// A copy of this node and everything below it.
    fn deep_copy(&self) -> (r: Node<T>)
        ensures
            r.same_kind(*self),
            r.slots().len() == self.slots().len(),
        decreases self, 1nat,
    {
        match self {
            Node::Node4 { value, prefix, index, pointers } => Node::Node4 {
                value: value.clone(),
                prefix: prefix.clone(),
                index: index.clone(),
                pointers: self.copy_slots(pointers),
            },
            Node::Node16 { value, prefix, index, pointers } => Node::Node16 {
                value: value.clone(),
                prefix: prefix.clone(),
                index: index.clone(),
                pointers: self.copy_slots(pointers),
            },
            Node::Node48 { value, prefix, index, pointers } => Node::Node48 {
                value: value.clone(),
                prefix: prefix.clone(),
                index: index.clone(),
                pointers: self.copy_slots(pointers),
            },
            Node::Node256 { value, prefix, pointers } => Node::Node256 {
                value: value.clone(),
                prefix: prefix.clone(),
                pointers: self.copy_slots(pointers),
            },
        }
    }
}

impl<T: Clone> Clone for Node<T> {
    /// A copy of this node and everything below it.
    fn clone(&self) -> (r: Node<T>) {
        self.deep_copy()
    }
}

impl<T> Default for Node<T> {
    /// An empty 4-way node: no value, no prefix, no children.
    fn default() -> (r: Node<T>)
        ensures
            r.wf(),
            r is Node4,
            r.val() is None,
            r.pre() == Seq::<u8>::empty(),
            forall|c: u8| #[trigger] r.child(c) is None,
            !r.full(),
            r@ == Map::<Seq<u8>, T>::empty(),
    {
        let r = Node::bare(Vec::new());
        proof {
            Self::lemma_leaf(r);
            assert(r@ =~= Map::<Seq<u8>, T>::empty());
            assert(r.slots()[0] is None);
        }
        r
    }
}

/// The first free slot.
fn first_free<T>(pointers: &Vec<Option<Box<Node<T>>>>) -> (r: usize)
    requires
        exists|i: int| 0 <= i < pointers@.len() && pointers@[i] is None,
    ensures
        r < pointers@.len(),
        pointers@[r as int] is None,
        forall|j: int| 0 <= j < r ==> pointers@[j] is Some,
{
    let mut i: usize = 0;
    while i < pointers.len()
        invariant
            i <= pointers@.len(),
            forall|j: int| 0 <= j < i ==> pointers@[j] is Some,
        decreases pointers@.len() - i,
    {
        if pointers[i].is_none() {
            return i;
        }
        i = i + 1;
    }
    i
}

/// The first slot `i` with `index[i] == byte` that holds a child.
fn scan<T>(index: &Vec<u8>, pointers: &Vec<Option<Box<Node<T>>>>, byte: u8) -> (r: Option<usize>)
    requires
        index@.len() == pointers@.len(),
    ensures
        match r {
            Some(i) => i < pointers@.len() && index@[i as int] == byte && pointers@[i as int] is Some,
            None => forall|j: int|
                0 <= j < pointers@.len() ==> !(index@[j] == byte && pointers@[j] is Some),
        },
{
    let mut i: usize = 0;
    while i < pointers.len()
        invariant
            i <= pointers@.len(),
            index@.len() == pointers@.len(),
            forall|j: int| 0 <= j < i ==> !(index@[j] == byte && pointers@[j] is Some),
        decreases pointers@.len() - i,
    {
        if index[i] == byte && pointers[i].is_some() {
            return Some(i);
        }
        i = i + 1;
    }
    None
}

impl<T> View for Node<T> {
    type V = Map<Seq<u8>, T>;

    /// The keys stored from this node on, with their values.
    closed spec fn view(&self) -> Map<Seq<u8>, T> {
        Map::new(|k: Seq<u8>| self.lookup(k) is Some, |k: Seq<u8>| self.lookup(k)->Some_0)
    }
}

} // verus!
