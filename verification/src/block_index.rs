//! The sparse block index: a finite-state transducer from the first key of
//! each block to the offset of that block's checkpoint in the checkpoint
//! table. The transducer itself is the `fst` crate's; this module states
//! what the dictionary relies on and walks its nodes.

use crate::common::{le_value, read_le};
use crate::error::DictError;
use crate::order::{agree, is_prefix, lex_le, lex_lt, spec_common_prefix_len};
use crate::order::{lemma_common_prefix_len, lemma_common_prefix_len_is};
use crate::order::{lemma_lex_by_first_difference, lemma_lex_le_transitive};
use crate::order::{lemma_lex_trichotomy, lemma_prefix_le};
use vstd::prelude::*;

verus! {

/// Declares `fst::Map`, an opened transducer over bytes of type `D`.
#[verifier::external_type_specification]
#[verifier::external_body]
#[verifier::reject_recursive_types(D)]
pub struct ExFstMap<D>(fst::Map<D>);

/// Declares `fst::MapBuilder`, a builder that writes a transducer to a
/// writer of type `W`.
#[verifier::external_type_specification]
#[verifier::external_body]
#[verifier::reject_recursive_types(W)]
pub struct ExFstMapBuilder<W>(fst::MapBuilder<W>);

/// Declares `fst::Error`, the error of the operations of the `fst` crate.
#[verifier::external_type_specification]
#[verifier::external_body]
pub struct ExFstError(fst::Error);

/// The key-value pairs that an opened index holds.
pub uninterp spec fn index_pairs(index: fst::Map<Vec<u8>>) -> Map<Seq<u8>, u64>;

/// Whether the bytes under an opened index are a transducer as a builder
/// writes it. Reading any other bytes may panic at any point.
pub uninterp spec fn index_valid(index: fst::Map<Vec<u8>>) -> bool;

/// Whether `addr` is the address of a node of the index.
pub uninterp spec fn is_node(index: fst::Map<Vec<u8>>, addr: usize) -> bool;

/// Whether the node at `addr` is a final state.
pub uninterp spec fn node_final(index: fst::Map<Vec<u8>>, addr: usize) -> bool;

/// The transitions that leave the node at `addr`, each an input byte and the
/// address of the node it leads to, in the order the node stores them.
pub uninterp spec fn node_trans(index: fst::Map<Vec<u8>>, addr: usize) -> Seq<(u8, usize)>;

/// The key-value pairs inserted into a builder so far.
pub uninterp spec fn builder_pairs(builder: fst::MapBuilder<Vec<u8>>) -> Map<Seq<u8>, u64>;

/// The bytes that a builder writes for a set of pairs.
pub uninterp spec fn fst_image(pairs: Map<Seq<u8>, u64>) -> Seq<u8>;

/// Whether `fst::Map::new` accepts the bytes.
pub uninterp spec fn fst_accepted(data: Seq<u8>) -> bool;

/// Whether the two addresses at the end of a transducer fit this machine:
/// the number of its keys and the address of its root node, each a
/// little-endian `u64`, before the checksum where the version in the first
/// eight bytes is 3. Bytes too short for a transducer, or of no known
/// version, are refused before the addresses are read.
pub open spec fn spec_addresses_fit(data: Seq<u8>) -> bool {
    let version = le_value(data.subrange(0, 8));
    let end = if version <= 2 {
        data.len() as int
    } else {
        data.len() - 4
    };
    data.len() >= 36 && 1 <= version <= 3 ==> le_value(data.subrange(end - 8, end))
        <= usize::MAX && le_value(data.subrange(end - 16, end - 8)) <= usize::MAX
}

/// Tells whether the two addresses at the end of a transducer fit this
/// machine.
pub fn addresses_fit(data: &[u8]) -> (res: bool)
    ensures
        res == spec_addresses_fit(data@),
{
    let len = data.len();
    if len < 36 {
        return true;
    }
    let version = read_le(data, 0, 8);
    if version == 0 || version > 3 {
        return true;
    }
    let end = if version <= 2 {
        len
    } else {
        len - 4
    };
    let root_addr = read_le(data, end - 8, 8);
    let count = read_le(data, end - 16, 8);
    root_addr <= usize::MAX as u64 && count <= usize::MAX as u64
}

/// Whether a string of bytes, read from the node at `addr` on, ends in a
/// final state.
pub open spec fn accepts(index: fst::Map<Vec<u8>>, addr: usize, s: Seq<u8>) -> bool
    decreases s.len(),
{
    if s.len() == 0 {
        node_final(index, addr)
    } else {
        exists|i: int|
            0 <= i < node_trans(index, addr).len()
                && (#[trigger] node_trans(index, addr)[i]).0 == s[0]
                && accepts(index, node_trans(index, addr)[i].1, s.skip(1))
    }
}

/// Wraps `fst::MapBuilder::memory`: a builder that has no pairs yet and
/// writes to memory.
#[verifier::external_body]
pub(crate) fn builder_memory() -> (res: fst::MapBuilder<Vec<u8>>)
    ensures
        builder_pairs(res) == (Map::<Seq<u8>, u64>::empty()),
{
    fst::MapBuilder::memory()
}

/// Wraps `fst::MapBuilder::insert`. The builder takes a key that is greater
/// than every key it holds and refuses any other; writing to memory does not
/// fail. A refused key leaves the builder as it was.
#[verifier::external_body]
pub(crate) fn builder_insert(builder: &mut fst::MapBuilder<Vec<u8>>, key: &[u8], val: u64) -> (res:
    Result<(), fst::Error>)
    ensures
        res is Ok <==> (forall|k: Seq<u8>| #[trigger]
            builder_pairs(*old(builder)).contains_key(k) ==> lex_lt(k, key@)),
        res is Ok ==> builder_pairs(*final(builder)) == builder_pairs(*old(builder)).insert(
            key@,
            val,
        ),
        res is Err ==> builder_pairs(*final(builder)) == builder_pairs(*old(builder)),
{
    builder.insert(key, val)
}

/// Wraps `fst::MapBuilder::into_inner`: the bytes of the finished
/// transducer, which depend on the inserted pairs alone. Writing to memory
/// does not fail, and the addresses that the builder writes are addresses
/// of this machine.
#[verifier::external_body]
pub(crate) fn builder_into_inner(builder: fst::MapBuilder<Vec<u8>>) -> (res: Result<
    Vec<u8>,
    fst::Error,
>)
    ensures
        res is Ok,
        res is Ok ==> res->Ok_0@ == fst_image(builder_pairs(builder)),
        res is Ok ==> spec_addresses_fit(res->Ok_0@),
{
    builder.into_inner()
}

/// Wraps `fst::Map::new`. Bytes that a builder wrote for finitely many
/// pairs open as a valid index that holds those pairs; of other bytes that
/// are accepted nothing is known. Addresses that do not fit this machine
/// would make the call panic.
#[verifier::external_body]
pub(crate) fn open_fst_index(data: Vec<u8>) -> (res: Result<fst::Map<Vec<u8>>, fst::Error>)
    requires
        spec_addresses_fit(data@),
    ensures
        res is Ok <==> fst_accepted(data@),
        forall|pairs: Map<Seq<u8>, u64>|
            pairs.dom().finite() && data@ == #[trigger] fst_image(pairs) ==> res is Ok
                && index_valid(res->Ok_0) && index_pairs(res->Ok_0) == pairs,
{
    fst::Map::new(data)
}

/// Wraps `fst::Map::get`.
#[verifier::external_body]
pub(crate) fn index_get(index: &fst::Map<Vec<u8>>, key: &[u8]) -> (res: Option<u64>)
    requires
        index_valid(*index),
    ensures
        res == (if index_pairs(*index).contains_key(key@) {
            Some(index_pairs(*index)[key@])
        } else {
            None
        }),
{
    index.get(key)
}

/// Wraps `fst::raw::Fst::root`: the address of the root node. The index
/// holds exactly the keys that lead from the root to a final state.
#[verifier::external_body]
pub(crate) fn index_root(index: &fst::Map<Vec<u8>>) -> (res: usize)
    requires
        index_valid(*index),
    ensures
        is_node(*index, res),
        forall|key: Seq<u8>|
            index_pairs(*index).contains_key(key) <==> #[trigger] accepts(*index, res, key),
{
    index.as_fst().root().addr()
}

/// Wraps `fst::raw::Node::is_final` for the node at `addr`.
#[verifier::external_body]
pub(crate) fn node_is_final(index: &fst::Map<Vec<u8>>, addr: usize) -> (res: bool)
    requires
        is_node(*index, addr),
    ensures
        res == node_final(*index, addr),
{
    index.as_fst().node(addr).is_final()
}

/// Wraps `fst::raw::Node::len` for the node at `addr`: the number of its
/// transitions.
#[verifier::external_body]
pub(crate) fn node_len(index: &fst::Map<Vec<u8>>, addr: usize) -> (res: usize)
    requires
        is_node(*index, addr),
    ensures
        res == node_trans(*index, addr).len(),
        res <= 256,
{
    index.as_fst().node(addr).len()
}

/// Wraps `fst::raw::Node::transition` for the node at `addr`: the input
/// byte of its `i`-th transition and the address it leads to. That address
/// is smaller than `addr` and is that of a node which is final or has
/// transitions of its own. The transitions of a node are sorted by input
/// byte: those before this one have smaller bytes, those after it greater
/// ones.
#[verifier::external_body]
pub(crate) fn node_transition(index: &fst::Map<Vec<u8>>, addr: usize, i: usize) -> (res: (
    u8,
    usize,
))
    requires
        is_node(*index, addr),
        i < node_trans(*index, addr).len(),
    ensures
        res == node_trans(*index, addr)[i as int],
        is_node(*index, res.1),
        res.1 < addr,
        node_final(*index, res.1) || node_trans(*index, res.1).len() > 0,
        forall|j: int| 0 <= j < i ==> (#[trigger] node_trans(*index, addr)[j]).0 < res.0,
        forall|j: int|
            i < j < node_trans(*index, addr).len() ==> (#[trigger] node_trans(*index, addr)[j]).0
                > res.0,
{
    let t = index.as_fst().node(addr).transition(i);
    (t.inp, t.addr)
}

/// Wraps `fst::raw::Node::find_input` for the node at `addr`: the position
/// of the transition whose input byte is `b`, if there is one.
#[verifier::external_body]
pub(crate) fn node_find_input(index: &fst::Map<Vec<u8>>, addr: usize, b: u8) -> (res: Option<
    usize,
>)
    requires
        is_node(*index, addr),
    ensures
        match res {
            Some(i) => i < node_trans(*index, addr).len() && node_trans(*index, addr)[i as int].0
                == b,
            None => forall|i: int|
                0 <= i < node_trans(*index, addr).len() ==> (#[trigger] node_trans(
                    *index,
                    addr,
                )[i]).0 != b,
        },
{
    index.as_fst().node(addr).find_input(b)
}

/// The node at `addr` is reached from the root by `path`: the strings that
/// lead from it to a final state are what the keys that begin with `path`
/// hold after `path`.
pub open spec fn stands_for(index: fst::Map<Vec<u8>>, addr: usize, path: Seq<u8>) -> bool {
    forall|s: Seq<u8>| #[trigger]
        accepts(index, addr, s) <==> index_pairs(index).contains_key(path + s)
}

/// The node at `addr` has a transition on the byte `inp` that leads to
/// `target`, and no other transition on that byte.
pub open spec fn has_transition(
    index: fst::Map<Vec<u8>>,
    addr: usize,
    inp: u8,
    target: usize,
) -> bool {
    exists|i: int|
        0 <= i < node_trans(index, addr).len() && #[trigger] node_trans(index, addr)[i] == (
            inp,
            target,
        ) && forall|j: int|
            0 <= j < node_trans(index, addr).len() && j != i ==> (#[trigger] node_trans(
                index,
                addr,
            )[j]).0 != inp
}

/// The node at `addr` has no transition on a byte from `lo` up to, and
/// without, `hi`.
pub open spec fn no_transition_in(index: fst::Map<Vec<u8>>, addr: usize, lo: int, hi: int) -> bool {
    forall|j: int|
        0 <= j < node_trans(index, addr).len() ==> !(lo <= (#[trigger] node_trans(
            index,
            addr,
        )[j]).0 < hi)
}

/// `found` is the greatest key of `pairs` that is not greater than `key`.
pub open spec fn is_greatest_le(pairs: Map<Seq<u8>, u64>, key: Seq<u8>, found: Seq<u8>) -> bool {
    &&& pairs.contains_key(found)
    &&& lex_le(found, key)
    &&& forall|k: Seq<u8>| #[trigger] pairs.contains_key(k) && lex_le(k, key) ==> lex_le(k, found)
}

/// No key of `pairs` that is not greater than `key` begins with `prefix`.
pub open spec fn none_le_with_prefix(
    pairs: Map<Seq<u8>, u64>,
    key: Seq<u8>,
    prefix: Seq<u8>,
) -> bool {
    forall|k: Seq<u8>| #[trigger] pairs.contains_key(k) && lex_le(k, key) ==> !is_prefix(prefix, k)
}

/// Every key of `pairs` is greater than `key`.
pub open spec fn none_le(pairs: Map<Seq<u8>, u64>, key: Seq<u8>) -> bool {
    forall|k: Seq<u8>| #[trigger] pairs.contains_key(k) ==> !lex_le(k, key)
}

/// A step along a transition: the node it leads to is reached by the path
/// with the transition's byte added.
proof fn lemma_step(index: fst::Map<Vec<u8>>, addr: usize, path: Seq<u8>, inp: u8, target: usize)
    requires
        stands_for(index, addr, path),
        has_transition(index, addr, inp, target),
    ensures
        stands_for(index, target, path.push(inp)),
{
    let i = choose|i: int|
        0 <= i < node_trans(index, addr).len() && #[trigger] node_trans(index, addr)[i] == (
            inp,
            target,
        ) && forall|j: int|
            0 <= j < node_trans(index, addr).len() && j != i ==> (#[trigger] node_trans(
                index,
                addr,
            )[j]).0 != inp;
    assert forall|s: Seq<u8>| #[trigger]
        accepts(index, target, s) <==> index_pairs(index).contains_key(path.push(inp) + s) by {
        let longer = seq![inp] + s;
        assert(longer.skip(1) =~= s);
        assert(longer[0] == inp);
        assert(path + longer =~= path.push(inp) + s);
        assert(accepts(index, addr, longer) <==> index_pairs(index).contains_key(path + longer));
        if accepts(index, target, s) {
            assert(node_trans(index, addr)[i].0 == longer[0]);
            assert(accepts(index, addr, longer));
        }
        if accepts(index, addr, longer) {
            let j = choose|j: int|
                0 <= j < node_trans(index, addr).len() && (#[trigger] node_trans(
                    index,
                    addr,
                )[j]).0 == longer[0] && accepts(
                    index,
                    node_trans(index, addr)[j].1,
                    longer.skip(1),
                );
            assert(j == i);
        }
    }
}

/// A key that begins with the path of a node and goes on has, at that
/// node, a transition on its next byte.
proof fn lemma_key_through(index: fst::Map<Vec<u8>>, addr: usize, path: Seq<u8>, k: Seq<u8>)
    requires
        stands_for(index, addr, path),
        index_pairs(index).contains_key(k),
        is_prefix(path, k),
    ensures
        k.len() == path.len() ==> k == path && node_final(index, addr),
        k.len() > path.len() ==> exists|j: int|
            0 <= j < node_trans(index, addr).len() && (#[trigger] node_trans(index, addr)[j]).0
                == k[path.len() as int],
{
    let s = k.skip(path.len() as int);
    assert(path + s =~= k);
    assert(accepts(index, addr, s));
    if k.len() == path.len() {
        assert(k =~= path);
    } else {
        let j = choose|j: int|
            0 <= j < node_trans(index, addr).len() && (#[trigger] node_trans(index, addr)[j]).0
                == s[0] && accepts(index, node_trans(index, addr)[j].1, s.skip(1));
        assert(node_trans(index, addr)[j].0 == k[path.len() as int]);
    }
}

/// Follows, from `node` on, the last transition of each node, and appends
/// the bytes passed to `buffer`. What `buffer` then holds is the greatest
/// key that begins with what it held.
pub(crate) fn fill_last(index: &fst::Map<Vec<u8>>, node: usize, buffer: &mut Vec<u8>)
    requires
        is_node(*index, node),
        node_final(*index, node) || node_trans(*index, node).len() > 0,
        stands_for(*index, node, old(buffer)@),
    ensures
        index_pairs(*index).contains_key(final(buffer)@),
        is_prefix(old(buffer)@, final(buffer)@),
        forall|k: Seq<u8>| #[trigger]
            index_pairs(*index).contains_key(k) && is_prefix(old(buffer)@, k) ==> lex_le(
                k,
                final(buffer)@,
            ),
{
    let mut node = node;
    let mut len = node_len(index, node);
    while len > 0
        invariant
            is_node(*index, node),
            len == node_trans(*index, node).len(),
            len == 0 ==> node_final(*index, node),
            stands_for(*index, node, buffer@),
            is_prefix(old(buffer)@, buffer@),
            forall|k: Seq<u8>| #[trigger]
                index_pairs(*index).contains_key(k) && is_prefix(old(buffer)@, k) ==> lex_le(
                    k,
                    buffer@,
                ) || is_prefix(buffer@, k),
        decreases node,
    {
        let transition = node_transition(index, node, len - 1);
        let ghost before = buffer@;
        buffer.push(transition.0);
        proof {
            assert(has_transition(*index, node, transition.0, transition.1)) by {
                assert(node_trans(*index, node)[len - 1] == transition);
            }
            lemma_step(*index, node, before, transition.0, transition.1);
            lemma_prefix_le(before, buffer@);
            assert forall|k: Seq<u8>| #[trigger]
                index_pairs(*index).contains_key(k) && is_prefix(
                    old(buffer)@,
                    k,
                ) implies lex_le(k, buffer@) || is_prefix(buffer@, k) by {
                if lex_le(k, before) {
                    lemma_lex_le_transitive(k, before, buffer@);
                } else {
                    lemma_key_through(*index, node, before, k);
                    if k.len() == before.len() {
                    } else {
                        let j = choose|j: int|
                            0 <= j < node_trans(*index, node).len() && (#[trigger] node_trans(
                                *index,
                                node,
                            )[j]).0 == k[before.len() as int];
                        if j == len - 1 {
                        } else {
                            assert(node_trans(*index, node)[j].0 < transition.0);
                            lemma_lex_by_first_difference(k, buffer@, before.len() as int);
                        }
                    }
                }
            }
        }
        node = transition.1;
        len = node_len(index, node);
    }
    proof {
        assert(buffer@ + Seq::<u8>::empty() =~= buffer@);
        assert(accepts(*index, node, Seq::<u8>::empty()));
        assert forall|k: Seq<u8>| #[trigger]
            index_pairs(*index).contains_key(k) && is_prefix(old(buffer)@, k) implies lex_le(
            k,
            buffer@,
        ) by {
            if !lex_le(k, buffer@) {
                lemma_key_through(*index, node, buffer@, k);
            }
        }
    }
}

/// Finds, among the transitions of the node at `addr`, the last one whose
/// byte is smaller than `b`.
pub(crate) fn last_transition_below(index: &fst::Map<Vec<u8>>, addr: usize, b: u8) -> (res:
    Option<(u8, usize)>)
    requires
        is_node(*index, addr),
    ensures
        match res {
            Some((inp, target)) => inp < b && is_node(*index, target) && (node_final(
                *index,
                target,
            ) || node_trans(*index, target).len() > 0) && has_transition(
                *index,
                addr,
                inp,
                target,
            ) && no_transition_in(*index, addr, inp + 1, b as int),
            None => no_transition_in(*index, addr, 0, b as int),
        },
{
    let len = node_len(index, addr);
    let mut last: Option<(u8, usize)> = None;
    let mut i: usize = 0;
    let mut done = false;
    while !done && i < len
        invariant
            is_node(*index, addr),
            len == node_trans(*index, addr).len(),
            i <= len,
            forall|j: int| 0 <= j < i ==> (#[trigger] node_trans(*index, addr)[j]).0 < b,
            !done ==> match last {
                Some(t) => i > 0 && t == node_trans(*index, addr)[i - 1] && is_node(*index, t.1)
                    && (node_final(*index, t.1) || node_trans(*index, t.1).len() > 0)
                    && has_transition(*index, addr, t.0, t.1) && (forall|j: int|
                    0 <= j < i - 1 ==> (#[trigger] node_trans(*index, addr)[j]).0 < t.0)
                    && (forall|j: int|
                    i <= j < len ==> (#[trigger] node_trans(*index, addr)[j]).0 > t.0),
                None => i == 0,
            },
            done ==> match last {
                Some((inp, target)) => inp < b && is_node(*index, target) && (node_final(
                    *index,
                    target,
                ) || node_trans(*index, target).len() > 0) && has_transition(
                    *index,
                    addr,
                    inp,
                    target,
                ) && no_transition_in(*index, addr, inp + 1, b as int),
                None => no_transition_in(*index, addr, 0, b as int),
            },
        decreases len - i + (if done { 0int } else { 1int }),
    {
        let transition = node_transition(index, addr, i);
        if transition.0 < b {
            last = Some(transition);
            i = i + 1;
            assert(has_transition(*index, addr, transition.0, transition.1)) by {
                assert(node_trans(*index, addr)[i - 1] == transition);
            }
        } else {
            done = true;
        }
    }
    last
}

/// Finds the greatest key of the index that is not greater than `key`, and
/// the value the index holds for it. Where every key of the index is
/// greater than `key`, the result is the empty key and zero.
pub(crate) fn previous_key_in(index: &fst::Map<Vec<u8>>, key: &[u8]) -> (res: (Vec<u8>, u64))
    requires
        index_valid(*index),
    ensures
        none_le(index_pairs(*index), key@) ==> res.0@ == Seq::<u8>::empty() && res.1 == 0,
        !none_le(index_pairs(*index), key@) ==> is_greatest_le(
            index_pairs(*index),
            key@,
            res.0@,
        ) && res.1 == index_pairs(*index)[res.0@],
{
    let root = index_root(index);
    let mut node = root;
    let mut node_stack: Vec<usize> = Vec::new();
    node_stack.push(node);
    let mut depth: usize = 0;
    let mut missing = false;
    let key_len = key.len();
    proof {
        assert forall|s: Seq<u8>| #[trigger]
            accepts(*index, root, s) <==> index_pairs(*index).contains_key(
                key@.take(0) + s,
            ) by {
            assert(key@.take(0) + s =~= s);
        }
    }
    // First follow the key as far as the index goes.
    while !missing && depth < key_len
        invariant
            key_len == key@.len(),
            depth <= key@.len(),
            node_stack@.len() == depth + 1,
            node == node_stack@[depth as int],
            forall|j: int|
                0 <= j <= depth ==> is_node(*index, #[trigger] node_stack@[j]) && stands_for(
                    *index,
                    node_stack@[j],
                    key@.take(j),
                ),
            missing ==> depth < key@.len() && no_transition_in(
                *index,
                node,
                key@[depth as int] as int,
                key@[depth as int] + 1,
            ),
        decreases key@.len() - depth + (if missing { 0int } else { 1int }),
    {
        match node_find_input(index, node, key[depth]) {
            None => {
                missing = true;
            },
            Some(i) => {
                let transition = node_transition(index, node, i);
                proof {
                    assert(has_transition(*index, node, transition.0, transition.1)) by {
                        assert(node_trans(*index, node)[i as int] == transition);
                    }
                    lemma_step(*index, node, key@.take(depth as int), transition.0, transition.1);
                    assert(key@.take(depth as int).push(key@[depth as int]) =~= key@.take(
                        depth + 1,
                    ));
                }
                node = transition.1;
                node_stack.push(node);
                depth = depth + 1;
            },
        }
    }
    let ghost pairs = index_pairs(*index);
    if !missing {
        assert(key@.take(depth as int) =~= key@);
        if node_is_final(index, node) {
            // The key itself is in the index.
            proof {
                assert(key@ + Seq::<u8>::empty() =~= key@);
                assert(accepts(*index, node, Seq::<u8>::empty()));
            }
            let result = vstd::slice::slice_to_vec(key);
            let val = match index_get(index, key) {
                Some(val) => val,
                None => 0,
            };
            return (result, val);
        }
        proof {
            assert forall|k: Seq<u8>| #[trigger] pairs.contains_key(k) && lex_le(
                k,
                key@,
            ) implies !is_prefix(key@.take(depth as int), k) by {
                if is_prefix(key@, k) {
                    lemma_key_through(*index, node, key@, k);
                    lemma_prefix_le(key@, k);
                    lemma_lex_trichotomy(k, key@);
                }
            }
        }
    } else {
        proof {
            assert forall|k: Seq<u8>| #[trigger] pairs.contains_key(k) && lex_le(
                k,
                key@,
            ) implies !is_prefix(key@.take(depth + 1), k) by {
                if is_prefix(key@.take(depth + 1), k) {
                    lemma_key_through(*index, node, key@.take(depth as int), k);
                }
            }
        }
    }
    // Then walk back up, and look at each node for a smaller way.
    assert(depth <= key_len);
    let mut i: usize = if missing {
        depth + 1
    } else {
        depth
    };
    while i > 0
        invariant
            i <= key@.len(),
            i <= node_stack@.len(),
            pairs == index_pairs(*index),
            index_valid(*index),
            forall|j: int|
                0 <= j < node_stack@.len() ==> is_node(*index, #[trigger] node_stack@[j])
                    && stands_for(*index, node_stack@[j], key@.take(j)),
            none_le_with_prefix(pairs, key@, key@.take(i as int)),
        decreases i,
    {
        i = i - 1;
        let cur_node = node_stack[i];
        let b: u8 = key[i];
        let ghost path = key@.take(i as int);
        match last_transition_below(index, cur_node, b) {
            Some((inp, target)) => {
                let mut result = vstd::slice::slice_to_vec(
                    vstd::slice::slice_subrange(key, 0, i),
                );
                result.push(inp);
                let ghost fork = result@;
                proof {
                    assert(fork =~= path.push(inp));
                    lemma_step(*index, cur_node, path, inp, target);
                }
                fill_last(index, target, &mut result);
                proof {
                    lemma_below_is_greatest(*index, cur_node, key@, i as int, inp, result@);
                }
                let val = match index_get(index, result.as_slice()) {
                    Some(val) => val,
                    None => 0,
                };
                return (result, val);
            },
            None => {
                if node_is_final(index, cur_node) {
                    // The key before is a prefix of the key.
                    let result = vstd::slice::slice_to_vec(
                        vstd::slice::slice_subrange(key, 0, i),
                    );
                    proof {
                        assert(result@ =~= path);
                        assert(path + Seq::<u8>::empty() =~= path);
                        assert(accepts(*index, cur_node, Seq::<u8>::empty()));
                        lemma_prefix_is_greatest(*index, cur_node, key@, i as int);
                    }
                    let val = match index_get(index, result.as_slice()) {
                        Some(val) => val,
                        None => 0,
                    };
                    return (result, val);
                }
                proof {
                    lemma_nothing_here(*index, cur_node, key@, i as int);
                }
            },
        }
    }
    proof {
        assert forall|k: Seq<u8>| #[trigger] pairs.contains_key(k) implies !lex_le(k, key@) by {
            assert(is_prefix(key@.take(0), k));
        }
    }
    (Vec::new(), 0)
}

/// A key that is not greater than `key` and does not begin with the first
/// `i` bytes of `key` comes before every string that begins with them.
proof fn lemma_off_path_is_smaller(key: Seq<u8>, i: int, k: Seq<u8>, found: Seq<u8>)
    requires
        0 <= i <= key.len(),
        lex_le(k, key),
        !is_prefix(key.take(i), k),
        is_prefix(key.take(i), found),
    ensures
        lex_lt(k, found),
{
    lemma_common_prefix_len(k, key);
    let d = spec_common_prefix_len(k, key);
    assert(d < i) by {
        if d >= i {
            assert(is_prefix(key.take(i), k));
        }
    }
    assert(agree(k, found, d));
    lemma_common_prefix_len_is(k, found, d);
}

/// At the node reached by the first `i` bytes of `key`, where no key that
/// is not greater than `key` goes on with byte `i` of `key`: the greatest
/// key that goes on with the greatest smaller byte is the greatest key not
/// greater than `key`.
proof fn lemma_below_is_greatest(
    index: fst::Map<Vec<u8>>,
    addr: usize,
    key: Seq<u8>,
    i: int,
    inp: u8,
    found: Seq<u8>,
)
    requires
        0 <= i < key.len(),
        stands_for(index, addr, key.take(i)),
        none_le_with_prefix(index_pairs(index), key, key.take(i + 1)),
        inp < key[i],
        no_transition_in(index, addr, inp + 1, key[i] as int),
        index_pairs(index).contains_key(found),
        is_prefix(key.take(i).push(inp), found),
        forall|k: Seq<u8>| #[trigger]
            index_pairs(index).contains_key(k) && is_prefix(key.take(i).push(inp), k) ==> lex_le(
                k,
                found,
            ),
    ensures
        is_greatest_le(index_pairs(index), key, found),
        !none_le(index_pairs(index), key),
{
    let path = key.take(i);
    assert(agree(found, key, i));
    lemma_lex_by_first_difference(found, key, i);
    assert forall|k: Seq<u8>| #[trigger]
        index_pairs(index).contains_key(k) && lex_le(k, key) implies lex_le(k, found) by {
        if is_prefix(path, k) {
            lemma_key_through(index, addr, path, k);
            if k.len() == i {
                lemma_prefix_le(k, found);
            } else {
                let c = k[i];
                if c == key[i] {
                    assert(is_prefix(key.take(i + 1), k));
                } else {
                    assert(agree(k, key, i));
                    lemma_lex_by_first_difference(k, key, i);
                    lemma_lex_trichotomy(k, key);
                    assert(c < key[i]);
                    assert(c <= inp);
                    if c == inp {
                        assert(is_prefix(path.push(inp), k));
                    } else {
                        assert(agree(k, found, i));
                        lemma_lex_by_first_difference(k, found, i);
                    }
                }
            }
        } else {
            lemma_off_path_is_smaller(key, i, k, found);
        }
    }
}

/// At the node reached by the first `i` bytes of `key`, which is final and
/// has no transition on a byte smaller than byte `i` of `key`, where no key
/// that is not greater than `key` goes on with byte `i` of `key`: those
/// first `i` bytes are the greatest key not greater than `key`.
proof fn lemma_prefix_is_greatest(index: fst::Map<Vec<u8>>, addr: usize, key: Seq<u8>, i: int)
    requires
        0 <= i < key.len(),
        stands_for(index, addr, key.take(i)),
        none_le_with_prefix(index_pairs(index), key, key.take(i + 1)),
        no_transition_in(index, addr, 0, key[i] as int),
        index_pairs(index).contains_key(key.take(i)),
    ensures
        is_greatest_le(index_pairs(index), key, key.take(i)),
        !none_le(index_pairs(index), key),
{
    let path = key.take(i);
    lemma_prefix_le(path, key);
    assert forall|k: Seq<u8>| #[trigger]
        index_pairs(index).contains_key(k) && lex_le(k, key) implies lex_le(k, path) by {
        if is_prefix(path, k) {
            lemma_key_through(index, addr, path, k);
            if k.len() > i {
                let c = k[i];
                if c == key[i] {
                    assert(is_prefix(key.take(i + 1), k));
                } else {
                    assert(agree(k, key, i));
                    lemma_lex_by_first_difference(k, key, i);
                    lemma_lex_trichotomy(k, key);
                }
            }
        } else {
            lemma_off_path_is_smaller(key, i, k, path);
        }
    }
}

/// At the node reached by the first `i` bytes of `key`, which is not final
/// and has no transition on a byte smaller than byte `i` of `key`, where no
/// key that is not greater than `key` goes on with byte `i` of `key`: no
/// key that is not greater than `key` begins with those first `i` bytes.
proof fn lemma_nothing_here(index: fst::Map<Vec<u8>>, addr: usize, key: Seq<u8>, i: int)
    requires
        0 <= i < key.len(),
        stands_for(index, addr, key.take(i)),
        none_le_with_prefix(index_pairs(index), key, key.take(i + 1)),
        no_transition_in(index, addr, 0, key[i] as int),
        !node_final(index, addr),
    ensures
        none_le_with_prefix(index_pairs(index), key, key.take(i)),
{
    let path = key.take(i);
    assert forall|k: Seq<u8>| #[trigger]
        index_pairs(index).contains_key(k) && lex_le(k, key) implies !is_prefix(path, k) by {
        if is_prefix(path, k) {
            lemma_key_through(index, addr, path, k);
            if k.len() > i {
                let c = k[i];
                if c == key[i] {
                    assert(is_prefix(key.take(i + 1), k));
                } else {
                    assert(agree(k, key, i));
                    lemma_lex_by_first_difference(k, key, i);
                    lemma_lex_trichotomy(k, key);
                }
            }
        }
    }
}

/// The error that a failed transducer operation stands for in a dictionary:
/// its bytes are not a transducer.
pub fn convert_fst_error(e: fst::Error) -> (res: DictError)
    ensures
        res == DictError::Corrupted,
{
    DictError::Corrupted
}

/// An opened block index.
pub struct BlockIndex {
    fst: fst::Map<Vec<u8>>,
}

impl View for BlockIndex {
    type V = Map<Seq<u8>, u64>;

    /// The pairs of the index: the first key of each block, and the offset
    /// of the block's checkpoint in the checkpoint table.
    closed spec fn view(&self) -> Map<Seq<u8>, u64> {
        index_pairs(self.fst)
    }
}

impl BlockIndex {
    /// The index was opened over bytes that a builder wrote.
    pub closed spec fn wf(&self) -> bool {
        index_valid(self.fst)
    }

    /// Opens the index that `data` holds. Bytes that a builder wrote for
    /// finitely many pairs, with addresses that fit this machine, open as
    /// an index of those pairs.
    pub fn open(data: Vec<u8>) -> (res: Result<BlockIndex, DictError>)
        ensures
            res is Ok <==> spec_addresses_fit(data@) && fst_accepted(data@),
            res is Err ==> res == Err::<BlockIndex, DictError>(DictError::Corrupted),
            forall|pairs: Map<Seq<u8>, u64>|
                pairs.dom().finite() && data@ == #[trigger] fst_image(pairs) && spec_addresses_fit(
                    data@,
                ) ==> res is Ok && res->Ok_0.wf() && res->Ok_0@ == pairs,
    {
        if !addresses_fit(data.as_slice()) {
            return Err(DictError::Corrupted);
        }
        match open_fst_index(data) {
            Ok(fst) => Ok(BlockIndex { fst }),
            Err(e) => Err(convert_fst_error(e)),
        }
    }

    /// Looks up the value of `key`.
    pub fn get(&self, key: &[u8]) -> (res: Option<u64>)
        requires
            self.wf(),
        ensures
            res == (if self@.contains_key(key@) {
                Some(self@[key@])
            } else {
                None
            }),
    {
        index_get(&self.fst, key)
    }

    /// Finds the greatest key of the index that is not greater than `key`,
    /// and the value the index holds for it. Where every key of the index
    /// is greater than `key`, the result is the empty key and zero.
    pub fn strictly_previous_key_checkpoint_offset(&self, key: &[u8]) -> (res: (Vec<u8>, u64))
        requires
            self.wf(),
        ensures
            none_le(self@, key@) ==> res.0@ == Seq::<u8>::empty() && res.1 == 0,
            !none_le(self@, key@) ==> is_greatest_le(self@, key@, res.0@) && res.1 == self@[res.0@],
    {
        previous_key_in(&self.fst, key)
    }
}

} // verus!
