//! The membership tree: a lean incremental Merkle tree over 32-byte field
//! elements, kept by `lean_imt`, with removal by overwriting a slot with the
//! all-zero element.
use core::marker::PhantomData;
use lean_imt::lean_imt::{LeanIMT, LeanIMTError};
use vstd::arithmetic::power2::pow2;
use vstd::prelude::*;

verus! {

/// Width in bytes of one field element.
pub const ELEMENT_SIZE: usize = 32;

/// Why a change to a group was refused.
#[derive(Debug, Clone, Copy, PartialEq, Eq, Structural)]
pub enum GroupError {
    EmptyLeaf,
    InvalidMemberLength,
    RemovedMember,
    AlreadyRemovedMember,
}

#[verifier::external_type_specification]
#[verifier::external_body]
pub struct ExLeanIMT<const N: usize>(LeanIMT<N>);

#[verifier::external_type_specification]
#[verifier::external_body]
pub struct ExLeanIMTError(LeanIMTError);

/// The leaves that a lean tree holds, left to right.
pub uninterp spec fn imt_leaves(t: LeanIMT<32>) -> Seq<Seq<u8>>;

/// The top node of a lean tree that holds at least one leaf.
pub uninterp spec fn imt_root(t: LeanIMT<32>) -> Seq<u8>;

/// How the nodes of a group's tree are hashed: a parent is `node_hash` of
/// the 64 bytes `left || right`. Implemented by the user of the library
/// (with Poseidon, for the proving circuit); whether a group's operations
/// return, and return without a panic, rests on that implementation.
pub trait NodeHash: Sized {
    /// What `node_hash` computes, as a function of its input alone. Left
    /// unspecified: one unknown function for each implementing type.
    open spec fn spec_hash(input: Seq<u8>) -> Seq<u8> {
        (vstd::pervasive::arbitrary::<spec_fn(Option<Self>, Seq<u8>) -> Seq<u8>>())(None, input)
    }

    fn node_hash(input: &[u8]) -> (r: [u8; 32])
        ensures
            r@ == Self::spec_hash(input@),
    ;
}

/// The level above `level` in a lean tree: each pair hashed left then right,
/// a lone last node carried up unhashed.
pub open spec fn level_up<H: NodeHash>(level: Seq<Seq<u8>>) -> Seq<Seq<u8>> {
    Seq::new(
        ((level.len() + 1) / 2) as nat,
        |i: int|
            if 2 * i + 1 < level.len() {
                H::spec_hash(level[2 * i] + level[2 * i + 1])
            } else {
                level[2 * i]
            },
    )
}

/// The root of a lean tree over `leaves`: the single node left after going
/// up level by level. A lone leaf is its own root; an empty tree has none
/// (the empty sequence stands for it here).
pub open spec fn lean_root<H: NodeHash>(leaves: Seq<Seq<u8>>) -> Seq<u8>
    decreases leaves.len(),
{
    if leaves.len() == 0 {
        Seq::empty()
    } else if leaves.len() == 1 {
        leaves[0]
    } else {
        lean_root::<H>(level_up::<H>(leaves))
    }
}

/// The levels of a lean tree, leaves first and the root's level last.
pub uninterp spec fn imt_levels(t: LeanIMT<32>) -> Seq<Seq<Seq<u8>>>;

/// `t` is a lean tree whose nodes were all computed with `H`: level 0 holds
/// the leaves, each level above is `level_up` of the one below, there are
/// `lean_depth` levels above the leaves, and the top node is the lean root.
pub open spec fn is_lean_tree<H: NodeHash>(t: LeanIMT<32>) -> bool {
    let levels = imt_levels(t);
    &&& levels.len() == lean_depth(imt_leaves(t).len()) + 1
    &&& levels[0] == imt_leaves(t)
    &&& forall|k: int| 0 <= k < levels.len() - 1 ==> #[trigger] levels[k + 1] == level_up::<H>(levels[k])
    &&& imt_leaves(t).len() > 0 ==> imt_root(t) == lean_root::<H>(imt_leaves(t))
}

/// The all-zero element, which marks a removed slot and is never a member.
pub open spec fn empty_element() -> Seq<u8> {
    Seq::new(32, |i: int| 0u8)
}

pub open spec fn is_sentinel(m: Seq<u8>) -> bool {
    m =~= empty_element()
}

/// A value that may be inserted as a member: one element wide, not the sentinel.
pub open spec fn is_valid_member(m: Seq<u8>) -> bool {
    m.len() == ELEMENT_SIZE && !is_sentinel(m)
}

pub open spec fn bytes_view(ms: Seq<Vec<u8>>) -> Seq<Seq<u8>> {
    ms.map_values(|m: Vec<u8>| m@)
}

pub open spec fn arrays_view(ms: Seq<[u8; 32]>) -> Seq<Seq<u8>> {
    ms.map_values(|m: [u8; 32]| m@)
}

pub open spec fn has_bad_length(ms: Seq<Seq<u8>>) -> bool {
    exists|i: int| 0 <= i < ms.len() && #[trigger] ms[i].len() != ELEMENT_SIZE
}

pub open spec fn has_sentinel(ms: Seq<Seq<u8>>) -> bool {
    exists|i: int| 0 <= i < ms.len() && is_sentinel(#[trigger] ms[i])
}

/// The number of levels above the leaves of a lean tree with `n` leaves:
/// the least `d` with `2^d >= n`, and 0 for an empty tree.
pub open spec fn lean_depth(n: nat) -> nat
    decreases n,
{
    if n <= 1 {
        0
    } else {
        1 + lean_depth(((n + 1) / 2) as nat)
    }
}

/// `i` is the first slot of `s` that holds `m`.
pub open spec fn is_first_index(s: Seq<Seq<u8>>, m: Seq<u8>, i: int) -> bool {
    0 <= i < s.len() && s[i] == m && forall|j: int| 0 <= j < i ==> s[j] != m
}

/// The leaves of a group built from `ms`, or why it cannot be built.
pub open spec fn new_outcome(ms: Seq<Seq<u8>>) -> Result<Seq<Seq<u8>>, GroupError> {
    if has_bad_length(ms) {
        Err(GroupError::InvalidMemberLength)
    } else if has_sentinel(ms) {
        Err(GroupError::EmptyLeaf)
    } else {
        Ok(ms)
    }
}

/// The leaves after appending `m` to `s`, or why `m` is refused.
pub open spec fn add_outcome(s: Seq<Seq<u8>>, m: Seq<u8>) -> Result<Seq<Seq<u8>>, GroupError> {
    if m.len() != ELEMENT_SIZE {
        Err(GroupError::InvalidMemberLength)
    } else if is_sentinel(m) {
        Err(GroupError::EmptyLeaf)
    } else {
        Ok(s.push(m))
    }
}

/// The leaves after appending all of `ms` to `s` at once, or why they are refused.
pub open spec fn add_many_outcome(s: Seq<Seq<u8>>, ms: Seq<Seq<u8>>) -> Result<
    Seq<Seq<u8>>,
    GroupError,
> {
    match new_outcome(ms) {
        Ok(ms) => Ok(s + ms),
        Err(e) => Err(e),
    }
}

/// The leaves after appending the members of `ms` one at a time, stopping at
/// the first refusal.
pub open spec fn add_each_outcome(s: Seq<Seq<u8>>, ms: Seq<Seq<u8>>) -> Result<
    Seq<Seq<u8>>,
    GroupError,
>
    decreases ms.len(),
{
    if ms.len() == 0 {
        Ok(s)
    } else {
        match add_outcome(s, ms[0]) {
            Ok(s1) => add_each_outcome(s1, ms.drop_first()),
            Err(e) => Err(e),
        }
    }
}

/// The leaves after slot `i` of `s` is overwritten with `m`, or why it is refused.
pub open spec fn update_outcome(s: Seq<Seq<u8>>, i: int, m: Seq<u8>) -> Result<
    Seq<Seq<u8>>,
    GroupError,
> {
    if !(0 <= i < s.len()) || is_sentinel(s[i]) {
        Err(GroupError::EmptyLeaf)
    } else if m.len() != ELEMENT_SIZE {
        Err(GroupError::InvalidMemberLength)
    } else {
        Ok(s.update(i, m))
    }
}

/// The leaves after slot `i` of `s` is marked removed, or why it is refused.
pub open spec fn remove_outcome(s: Seq<Seq<u8>>, i: int) -> Result<Seq<Seq<u8>>, GroupError> {
    update_outcome(s, i, empty_element())
}

/// Relies on `LeanIMT::new`: a tree whose leaves are `leaves` in order, its
/// nodes hashed with `hash` (left || right, a lone node carried up). It
/// inserts one leaf, or a nonempty batch, so it never returns an error.
#[verifier::external_body]
fn imt_new<H: NodeHash>(leaves: &[[u8; 32]]) -> (r: Result<LeanIMT<32>, LeanIMTError>)
    ensures
        r is Ok,
        r is Ok ==> imt_leaves(r->Ok_0) == arrays_view(leaves@),
        r is Ok ==> imt_levels(r->Ok_0)[0] == imt_leaves(r->Ok_0),
        r is Ok ==> is_lean_tree::<H>(r->Ok_0),
{
    LeanIMT::new(leaves, H::node_hash)
}

/// Relies on `LeanIMT::insert`: appends `leaf` after the last leaf and
/// rehashes its path to the root, reading the stored siblings; so the
/// stored nodes must already have been computed with `H`.
#[verifier::external_body]
fn imt_insert<H: NodeHash>(t: &mut LeanIMT<32>, leaf: &[u8; 32])
    requires
        is_lean_tree::<H>(*old(t)),
    ensures
        imt_leaves(*final(t)) == imt_leaves(*old(t)).push(leaf@),
        imt_levels(*final(t))[0] == imt_leaves(*final(t)),
        is_lean_tree::<H>(*final(t)),
{
    t.insert(leaf, H::node_hash)
}

/// Relies on `LeanIMT::insert_many`: appends `leaves` in order and rehashes
/// the parents from the first new leaf up; it fails only on an empty batch.
/// The stored nodes left of the new leaves must have been computed with `H`.
#[verifier::external_body]
fn imt_insert_many<H: NodeHash>(t: &mut LeanIMT<32>, leaves: &[[u8; 32]]) -> (r: Result<
    (),
    LeanIMTError,
>)
    requires
        is_lean_tree::<H>(*old(t)),
    ensures
        r is Ok <==> leaves@.len() > 0,
        r is Ok ==> imt_leaves(*final(t)) == imt_leaves(*old(t)) + arrays_view(leaves@),
        r is Ok ==> is_lean_tree::<H>(*final(t)),
        r is Err ==> *final(t) == *old(t),
{
    t.insert_many(leaves, H::node_hash)
}

/// Relies on `LeanIMT::update`: overwrites leaf `index` and rehashes its
/// path to the root, reading the stored siblings; it fails only when
/// `index` is past the last leaf. The stored nodes must have been computed
/// with `H`.
#[verifier::external_body]
fn imt_update<H: NodeHash>(t: &mut LeanIMT<32>, index: usize, leaf: &[u8; 32]) -> (r:
    Result<(), LeanIMTError>)
    requires
        is_lean_tree::<H>(*old(t)),
    ensures
        r is Ok <==> index < imt_leaves(*old(t)).len(),
        r is Ok ==> imt_leaves(*final(t)) == imt_leaves(*old(t)).update(index as int, leaf@),
        r is Ok ==> is_lean_tree::<H>(*final(t)),
        r is Err ==> *final(t) == *old(t),
{
    t.update(index, leaf, H::node_hash)
}

/// Relies on `LeanIMT::leaves`: the leaves, left to right.
#[verifier::external_body]
fn imt_leaves_of(t: &LeanIMT<32>) -> (r: &[[u8; 32]])
    ensures
        arrays_view(r@) == imt_leaves(*t),
{
    t.leaves()
}

/// Relies on `LeanIMT::root`: the top node, absent exactly when there are no leaves.
#[verifier::external_body]
fn imt_root_of(t: &LeanIMT<32>) -> (r: Option<[u8; 32]>)
    ensures
        r is Some <==> imt_leaves(*t).len() > 0,
        r is Some ==> r->Some_0@ == imt_root(*t),
{
    t.root()
}

/// Relies on `LeanIMT::depth`: the number of levels above the leaves, which
/// `insert`, `insert_many` and `new` keep at the least `d` with `2^d` leaves
/// or more.
#[verifier::external_body]
fn imt_depth(t: &LeanIMT<32>) -> (r: usize)
    ensures
        r == lean_depth(imt_leaves(*t).len()),
{
    t.depth()
}

/// Relies on `LeanIMT::index_of`: the position of the first leaf equal to `leaf`.
#[verifier::external_body]
fn imt_index_of(t: &LeanIMT<32>, leaf: &[u8]) -> (r: Option<usize>)
    ensures
        match r {
            Some(i) => is_first_index(imt_leaves(*t), leaf@, i as int),
            None => !imt_leaves(*t).contains(leaf@),
        },
{
    t.index_of(leaf)
}

/// Copies a member that is one element wide into a fixed-size array.
fn member_array(m: &Vec<u8>) -> (r: [u8; 32])
    requires
        m@.len() == ELEMENT_SIZE,
    ensures
        r@ == m@,
{
    let mut a = [0u8; 32];
    let mut i: usize = 0;
    while i < ELEMENT_SIZE
        invariant
            i <= ELEMENT_SIZE,
            m@.len() == ELEMENT_SIZE,
            forall|j: int| 0 <= j < i ==> a@[j] == m@[j],
        decreases ELEMENT_SIZE - i,
    {
        a[i] = m[i];
        i = i + 1;
    }
    assert(a@ =~= m@);
    a
}

/// Copies an element into a byte vector.
fn array_bytes(a: &[u8; 32]) -> (r: Vec<u8>)
    ensures
        r@ == a@,
{
    let mut v: Vec<u8> = Vec::with_capacity(ELEMENT_SIZE);
    let mut i: usize = 0;
    while i < ELEMENT_SIZE
        invariant
            i <= ELEMENT_SIZE,
            v@ =~= a@.subrange(0, i as int),
        decreases ELEMENT_SIZE - i,
    {
        v.push(a[i]);
        i = i + 1;
    }
    assert(v@ =~= a@);
    v
}

/// Whether `m` is the all-zero element.
fn is_sentinel_bytes(m: &[u8]) -> (r: bool)
    ensures
        r == is_sentinel(m@),
{
    if m.len() != ELEMENT_SIZE {
        return false;
    }
    let mut i: usize = 0;
    while i < ELEMENT_SIZE
        invariant
            i <= ELEMENT_SIZE,
            m@.len() == ELEMENT_SIZE,
            forall|j: int| 0 <= j < i ==> m@[j] == 0u8,
        decreases ELEMENT_SIZE - i,
    {
        if m[i] != 0 {
            assert(m@[i as int] != empty_element()[i as int]);
            return false;
        }
        i = i + 1;
    }
    assert(m@ =~= empty_element());
    true
}

/// Copies members into arrays, refusing the first one that is not one
/// element wide.
fn member_arrays(ms: &Vec<Vec<u8>>) -> (r: Result<Vec<[u8; 32]>, GroupError>)
    ensures
        match r {
            Ok(a) => !has_bad_length(bytes_view(ms@)) && arrays_view(a@) == bytes_view(ms@),
            Err(e) => e == GroupError::InvalidMemberLength && has_bad_length(bytes_view(ms@)),
        },
{
    let mut out: Vec<[u8; 32]> = Vec::with_capacity(ms.len());
    let mut i: usize = 0;
    while i < ms.len()
        invariant
            i <= ms@.len(),
            out@.len() == i,
            arrays_view(out@) =~= bytes_view(ms@).subrange(0, i as int),
            forall|j: int| 0 <= j < i ==> ms@[j]@.len() == ELEMENT_SIZE,
        decreases ms@.len() - i,
    {
        if ms[i].len() != ELEMENT_SIZE {
            assert(bytes_view(ms@)[i as int].len() != ELEMENT_SIZE);
            return Err(GroupError::InvalidMemberLength);
        }
        let a = member_array(&ms[i]);
        out.push(a);
        assert(arrays_view(out@)[i as int] == bytes_view(ms@)[i as int]);
        assert(arrays_view(out@) =~= bytes_view(ms@).subrange(0, i + 1));
        i = i + 1;
    }
    assert(arrays_view(out@) =~= bytes_view(ms@));
    Ok(out)
}

/// Whether some element of `ms` is the all-zero element.
fn any_sentinel(ms: &Vec<[u8; 32]>) -> (r: bool)
    ensures
        r == has_sentinel(arrays_view(ms@)),
{
    let mut i: usize = 0;
    while i < ms.len()
        invariant
            i <= ms@.len(),
            forall|j: int| 0 <= j < i ==> !is_sentinel(#[trigger] arrays_view(ms@)[j]),
        decreases ms@.len() - i,
    {
        if is_sentinel_bytes(ms[i].as_slice()) {
            assert(is_sentinel(arrays_view(ms@)[i as int]));
            return true;
        }
        i = i + 1;
    }
    false
}

/// An anonymity set: the commitments of its members as leaves of a lean
/// incremental Merkle tree whose nodes are hashed with `H`. Indices are
/// permanent; a removed member leaves the all-zero element in its slot.
/// Every change runs `H::node_hash`, so that it returns, and returns without
/// a panic, rests on `H`'s implementation.
pub struct Group<H> {
    tree: LeanIMT<32>,
    hasher: PhantomData<H>,
}

impl<H> View for Group<H> {
    type V = Seq<Seq<u8>>;

    /// The leaves, in the order of their indices, removed slots included.
    closed spec fn view(&self) -> Seq<Seq<u8>> {
        imt_leaves(self.tree)
    }
}

impl<H: NodeHash> Group<H> {
    /// The tree's top node is the lean root of its leaves under `H`.
    pub closed spec fn wf(&self) -> bool {
        &&& is_lean_tree::<H>(self.tree)
        &&& forall|i: int|
            0 <= i < imt_leaves(self.tree).len() ==> (#[trigger] imt_leaves(self.tree)[i]).len()
                == ELEMENT_SIZE
    }

    /// Builds a group whose leaves are `members` in order. Every member must
    /// be one element wide, and none may be the all-zero element.
    pub fn new(members: Vec<Vec<u8>>) -> (r: Result<Group<H>, GroupError>)
        ensures
            match new_outcome(bytes_view(members@)) {
                Ok(s) => r is Ok && r->Ok_0@ == s && r->Ok_0.wf(),
                Err(e) => r == Err::<Group<H>, GroupError>(e),
            },
    {
        let arrays = match member_arrays(&members) {
            Ok(a) => a,
            Err(e) => return Err(e),
        };
        if any_sentinel(&arrays) {
            return Err(GroupError::EmptyLeaf);
        }
        match imt_new::<H>(arrays.as_slice()) {
            Ok(tree) => Ok(Group { tree, hasher: PhantomData }),
            Err(_) => Err(GroupError::EmptyLeaf),
        }
    }

    /// The root of the tree, absent exactly when the group has no leaves:
    /// the lean root of the leaves under `H`.
    pub fn root(&self) -> (r: Option<Vec<u8>>)
        requires
            self.wf(),
        ensures
            r is Some <==> self@.len() > 0,
            r is Some ==> r->Some_0@.len() == ELEMENT_SIZE,
            r is Some ==> r->Some_0@ == lean_root::<H>(self@),
    {
        match imt_root_of(&self.tree) {
            Some(a) => Some(array_bytes(&a)),
            None => None,
        }
    }

    /// The number of levels above the leaves.
    pub fn depth(&self) -> (r: u32)
        ensures
            r == lean_depth(self@.len()),
    {
        let d = imt_depth(&self.tree);
        let leaves = imt_leaves_of(&self.tree);
        let n = leaves.len();
        proof {
            assert(arrays_view(leaves@).len() == n);
            vstd::arithmetic::power2::lemma2_to64();
            lemma_depth_bounded(self@.len(), 64);
        }
        d as u32
    }

    /// Every leaf, in index order, removed slots included.
    pub fn members(&self) -> (r: Vec<Vec<u8>>)
        ensures
            bytes_view(r@) == self@,
            forall|i: int| 0 <= i < r@.len() ==> (#[trigger] r@[i])@.len() == ELEMENT_SIZE,
    {
        let leaves = imt_leaves_of(&self.tree);
        let mut out: Vec<Vec<u8>> = Vec::with_capacity(leaves.len());
        let mut i: usize = 0;
        while i < leaves.len()
            invariant
                i <= leaves@.len(),
                arrays_view(leaves@) == self@,
                out@.len() == i,
                bytes_view(out@) =~= arrays_view(leaves@).subrange(0, i as int),
                forall|j: int| 0 <= j < i ==> (#[trigger] out@[j])@.len() == ELEMENT_SIZE,
            decreases leaves@.len() - i,
        {
            out.push(array_bytes(&leaves[i]));
            assert(bytes_view(out@)[i as int] == arrays_view(leaves@)[i as int]);
            assert(bytes_view(out@) =~= arrays_view(leaves@).subrange(0, i + 1));
            i = i + 1;
        }
        assert(bytes_view(out@) =~= self@);
        out
    }

    /// The first index whose leaf is `member`, if any. Indices are 32-bit.
    pub fn index_of(&self, member: Vec<u8>) -> (r: Option<u32>)
        requires
            self@.len() <= u32::MAX,
        ensures
            match r {
                Some(i) => is_first_index(self@, member@, i as int),
                None => !self@.contains(member@),
            },
    {
        match imt_index_of(&self.tree, member.as_slice()) {
            Some(i) => Some(i as u32),
            None => None,
        }
    }

    /// Whether some leaf is `member`.
    pub(crate) fn holds(&self, member: &Vec<u8>) -> (r: bool)
        ensures
            r == self@.contains(member@),
    {
        match imt_index_of(&self.tree, member.as_slice()) {
            Some(i) => {
                assert(self@[i as int] == member@);
                true
            },
            None => false,
        }
    }

    /// The leaves as fixed-size elements, in index order.
    pub(crate) fn leaf_arrays(&self) -> (r: Vec<[u8; 32]>)
        ensures
            arrays_view(r@) == self@,
    {
        let leaves = imt_leaves_of(&self.tree);
        let mut out: Vec<[u8; 32]> = Vec::with_capacity(leaves.len());
        let mut i: usize = 0;
        while i < leaves.len()
            invariant
                i <= leaves@.len(),
                arrays_view(leaves@) == self@,
                out@ =~= leaves@.subrange(0, i as int),
            decreases leaves@.len() - i,
        {
            out.push(leaves[i]);
            i = i + 1;
        }
        assert(out@ =~= leaves@);
        out
    }

    /// Appends `member` at the next index. On an error the group is unchanged.
    pub fn add_member(&mut self, member: Vec<u8>) -> (r: Result<(), GroupError>)
        requires
            old(self).wf(),
        ensures
            match add_outcome(old(self)@, member@) {
                Ok(s) => r is Ok && final(self)@ == s,
                Err(e) => r == Err::<(), GroupError>(e) && *final(self) == *old(self),
            },
            final(self).wf(),
    {
        if member.len() != ELEMENT_SIZE {
            return Err(GroupError::InvalidMemberLength);
        }
        if is_sentinel_bytes(member.as_slice()) {
            return Err(GroupError::EmptyLeaf);
        }
        let a = member_array(&member);
        imt_insert::<H>(&mut self.tree, &a);
        Ok(())
    }

    /// Appends `members` in order as one batch. On an error the group is
    /// unchanged; an empty batch changes nothing.
    pub fn add_members(&mut self, members: Vec<Vec<u8>>) -> (r: Result<(), GroupError>)
        requires
            old(self).wf(),
        ensures
            match add_many_outcome(old(self)@, bytes_view(members@)) {
                Ok(s) => r is Ok && final(self)@ == s,
                Err(e) => r == Err::<(), GroupError>(e) && *final(self) == *old(self),
            },
            members@.len() == 0 ==> r is Ok && *final(self) == *old(self),
            final(self).wf(),
    {
        let arrays = match member_arrays(&members) {
            Ok(a) => a,
            Err(e) => return Err(e),
        };
        if any_sentinel(&arrays) {
            return Err(GroupError::EmptyLeaf);
        }
        if arrays.len() == 0 {
            assert(self@ + bytes_view(members@) =~= self@);
            return Ok(());
        }
        match imt_insert_many::<H>(&mut self.tree, arrays.as_slice()) {
            Ok(()) => Ok(()),
            Err(_) => Err(GroupError::EmptyLeaf),
        }
    }

    /// Overwrites the leaf at `index` with `member`. A removed slot cannot be
    /// given a value again. On an error the group is unchanged.
    pub fn update_member(&mut self, index: u32, member: Vec<u8>) -> (r: Result<(), GroupError>)
        requires
            old(self).wf(),
        ensures
            match update_outcome(old(self)@, index as int, member@) {
                Ok(s) => r is Ok && final(self)@ == s,
                Err(e) => r == Err::<(), GroupError>(e) && *final(self) == *old(self),
            },
            final(self).wf(),
    {
        let leaves = imt_leaves_of(&self.tree);
        let i = index as usize;
        if i >= leaves.len() {
            return Err(GroupError::EmptyLeaf);
        }
        if is_sentinel_bytes(leaves[i].as_slice()) {
            return Err(GroupError::EmptyLeaf);
        }
        if member.len() != ELEMENT_SIZE {
            return Err(GroupError::InvalidMemberLength);
        }
        let a = member_array(&member);
        match imt_update::<H>(&mut self.tree, i, &a) {
            Ok(()) => Ok(()),
            Err(_) => Err(GroupError::EmptyLeaf),
        }
    }

    /// Marks the slot at `index` removed by writing the all-zero element into
    /// it; the index is never reused. On an error the group is unchanged.
    pub fn remove_member(&mut self, index: u32) -> (r: Result<(), GroupError>)
        requires
            old(self).wf(),
        ensures
            match remove_outcome(old(self)@, index as int) {
                Ok(s) => r is Ok && final(self)@ == s,
                Err(e) => r == Err::<(), GroupError>(e) && *final(self) == *old(self),
            },
            final(self).wf(),
    {
        let zero: Vec<u8> = vec![0u8; 32];
        assert(zero@ =~= empty_element());
        self.update_member(index, zero)
    }
}

/// A tree with at most `2^k` leaves has at most `k` levels above them.
proof fn lemma_depth_bounded(n: nat, k: nat)
    requires
        n <= pow2(k),
    ensures
        lean_depth(n) <= k,
    decreases n,
{
    if n > 1 {
        assert(k > 0) by {
            if k == 0 {
                vstd::arithmetic::power2::lemma2_to64();
            }
        };
        lemma_pow2_succ((k - 1) as nat);
        lemma_depth_bounded(((n + 1) / 2) as nat, (k - 1) as nat);
    }
}

proof fn lemma_pow2_succ(k: nat)
    ensures
        pow2(k + 1) == 2 * pow2(k),
{
    vstd::arithmetic::power2::lemma_pow2_unfold(k + 1);
}

/// Adding a valid member that the group does not hold yet succeeds, puts it
/// at the next index, and that index is then the first one holding it.
pub proof fn lemma_add_then_index_of(s: Seq<Seq<u8>>, m: Seq<u8>)
    requires
        is_valid_member(m),
        !s.contains(m),
    ensures
        add_outcome(s, m) == Ok::<Seq<Seq<u8>>, GroupError>(s.push(m)),
        is_first_index(s.push(m), m, s.len() as int),
{
    assert forall|j: int| 0 <= j < s.len() implies s.push(m)[j] != m by {
        assert(s.push(m)[j] == s[j]);
        if s[j] == m {
            assert(s.contains(m));
        }
    };
}

/// A removal that succeeds leaves the all-zero element in the slot, so
/// removing the same index again fails with `EmptyLeaf`.
pub proof fn lemma_remove_twice(s: Seq<Seq<u8>>, i: int)
    requires
        remove_outcome(s, i) is Ok,
    ensures
        is_sentinel(remove_outcome(s, i)->Ok_0[i]),
        remove_outcome(remove_outcome(s, i)->Ok_0, i) == Err::<Seq<Seq<u8>>, GroupError>(
            GroupError::EmptyLeaf,
        ),
{
}

/// Appending members one at a time succeeds exactly when every one is a
/// valid member, and then gives `s` followed by them.
proof fn lemma_add_each(s: Seq<Seq<u8>>, ms: Seq<Seq<u8>>)
    ensures
        (forall|i: int| 0 <= i < ms.len() ==> is_valid_member(#[trigger] ms[i])) ==> add_each_outcome(
            s,
            ms,
        ) == Ok::<Seq<Seq<u8>>, GroupError>(s + ms),
        !(forall|i: int| 0 <= i < ms.len() ==> is_valid_member(#[trigger] ms[i]))
            ==> add_each_outcome(s, ms) is Err,
    decreases ms.len(),
{
    if ms.len() == 0 {
        assert(s + ms =~= s);
    } else {
        let rest = ms.drop_first();
        lemma_add_each(s.push(ms[0]), rest);
        assert(s.push(ms[0]) + rest =~= s + ms);
        if !(forall|i: int| 0 <= i < ms.len() ==> is_valid_member(#[trigger] ms[i])) {
            let k = choose|i: int| 0 <= i < ms.len() && !is_valid_member(#[trigger] ms[i]);
            if k > 0 {
                assert(rest[k - 1] == ms[k]);
            }
        } else {
            assert forall|i: int| 0 <= i < rest.len() implies is_valid_member(#[trigger] rest[i]) by {
                assert(rest[i] == ms[i + 1]);
            };
            assert(is_valid_member(ms[0]));
        }
    }
}

/// For any number `k >= 0` of members, `add_members` of the batch succeeds
/// exactly when the `k` calls of `add_member`, one per member in order, all
/// succeed, and both leave the same members, so the same root under any
/// hasher (and the same depth); the empty batch changes nothing.
pub proof fn lemma_batch_matches_sequence<H: NodeHash>(s: Seq<Seq<u8>>, ms: Seq<Seq<u8>>)
    ensures
        add_many_outcome(s, ms) is Ok <==> add_each_outcome(s, ms) is Ok,
        add_many_outcome(s, ms) is Ok ==> add_many_outcome(s, ms) == add_each_outcome(s, ms),
        add_many_outcome(s, ms) is Ok ==> lean_root::<H>(add_many_outcome(s, ms)->Ok_0)
            == lean_root::<H>(add_each_outcome(s, ms)->Ok_0),
        ms.len() == 0 ==> add_many_outcome(s, ms) == Ok::<Seq<Seq<u8>>, GroupError>(s),
{
    lemma_add_each(s, ms);
    if forall|i: int| 0 <= i < ms.len() ==> is_valid_member(#[trigger] ms[i]) {
        assert(!has_bad_length(ms));
        assert(!has_sentinel(ms));
    } else {
        let k = choose|i: int| 0 <= i < ms.len() && !is_valid_member(#[trigger] ms[i]);
        if ms[k].len() != ELEMENT_SIZE {
            assert(has_bad_length(ms));
        } else {
            assert(has_sentinel(ms));
        }
    }
    if ms.len() == 0 {
        assert(s + ms =~= s);
    }
}

/// Two groups built from the same member list have the same leaves, root
/// and depth.
pub proof fn lemma_build_is_deterministic<H: NodeHash>(a: Seq<Seq<u8>>, b: Seq<Seq<u8>>)
    requires
        a == b,
        new_outcome(a) is Ok,
    ensures
        new_outcome(b) == new_outcome(a),
        lean_root::<H>(new_outcome(a)->Ok_0) == lean_root::<H>(new_outcome(b)->Ok_0),
        lean_depth(new_outcome(a)->Ok_0.len()) == lean_depth(new_outcome(b)->Ok_0.len()),
{
}

/// For a nonempty tree, the depth is the least `d` with `2^d` leaves or more.
pub proof fn lemma_depth_is_least(n: nat)
    requires
        n > 0,
    ensures
        pow2(lean_depth(n)) >= n,
        lean_depth(n) > 0 ==> pow2((lean_depth(n) - 1) as nat) < n,
    decreases n,
{
    vstd::arithmetic::power2::lemma2_to64();
    if n > 1 {
        let m = ((n + 1) / 2) as nat;
        lemma_depth_is_least(m);
        let dm = lean_depth(m);
        lemma_pow2_succ(dm);
        if dm > 0 {
            lemma_pow2_succ((dm - 1) as nat);
        }
    }
}

/// A tree of `2^d` leaves has depth `d`, and the next leaf raises the depth
/// by exactly one.
pub proof fn lemma_depth_grows_past_power(d: nat)
    ensures
        lean_depth(pow2(d)) == d,
        lean_depth(pow2(d) + 1) == d + 1,
    decreases d,
{
    vstd::arithmetic::power2::lemma2_to64();
    if d > 0 {
        lemma_depth_grows_past_power((d - 1) as nat);
        lemma_pow2_succ((d - 1) as nat);
        let p = pow2((d - 1) as nat);
        assert((pow2(d) + 1) / 2 == p);
        assert((pow2(d) + 2) / 2 == p + 1);
    }
}

} // verus!
