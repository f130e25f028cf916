//! The finite state transducers of the `fst` crate, as this crate sees them.
//!
//! A class of pieces is kept in an `fst::Map`: an ordered map from byte
//! strings to integers, stored as a transducer. A key is looked up by walking
//! from the root node along the transitions that carry its bytes; the key is
//! in the map if the walk ends at a final node, and its value is the sum of
//! the outputs of the transitions and of the final output of that node.
//!
//! Nothing in this file is proved. Each function makes one step in the `fst`
//! crate and states what that step does, over four names: what a map holds,
//! what it holds from a node on, what a builder has taken, and the key that
//! it took last. A node is known by its address in the map.
use vstd::prelude::*;
use crate::lex::lex_lt;

verus! {

/// `fst::Map`, of which nothing but the names below is known.
#[verifier::external_type_specification]
#[verifier::external_body]
#[verifier::reject_recursive_types(D)]
pub struct ExFstMap<D>(fst::Map<D>);

/// `fst::MapBuilder`, of which nothing but the names below is known.
#[verifier::external_type_specification]
#[verifier::external_body]
#[verifier::reject_recursive_types(W)]
pub struct ExFstMapBuilder<W>(fst::MapBuilder<W>);

/// `fst::Error`, which is carried through and never looked into.
#[verifier::external_type_specification]
#[verifier::external_body]
pub struct ExFstError(fst::Error);

/// The pairs of key and value that a map holds, where a builder of the `fst`
/// crate wrote the map; `None` of a map that was made from other bytes, of
/// which the `fst` crate promises nothing.
pub uninterp spec fn map_pieces(m: fst::Map<Vec<u8>>) -> Option<Map<Seq<u8>, u64>>;

/// What a map holds from the node at `addr` on: each byte string that leads
/// from that node to a final node, with the sum of the outputs on its way and
/// the final output at its end. `None` where `addr` is not the address of a
/// node of the map.
pub uninterp spec fn pieces_at(m: fst::Map<Vec<u8>>, addr: usize) -> Option<Map<Seq<u8>, u64>>;

/// The pairs that a builder has taken so far.
pub uninterp spec fn builder_pieces(b: fst::MapBuilder<Vec<u8>>) -> Map<Seq<u8>, u64>;

/// The key that a builder took last.
pub uninterp spec fn builder_last(b: fst::MapBuilder<Vec<u8>>) -> Option<Seq<u8>>;

/// One transition, on `byte` and with output `out`, leads from a node that
/// holds `from` to a node that holds `to`: `to` holds what is left of the keys
/// of `from` that start with `byte`, each with its value less `out`, and it
/// holds at least one.
pub open spec fn leads(from: Map<Seq<u8>, u64>, byte: u8, out: u64, to: Map<Seq<u8>, u64>) -> bool {
    &&& exists|s: Seq<u8>| to.dom().contains(s)
    &&& forall|s: Seq<u8>| #[trigger]
        to.dom().contains(s) <==> from.dom().contains(seq![byte] + s)
    &&& forall|s: Seq<u8>| #[trigger]
        to.dom().contains(s) ==> from[seq![byte] + s] == out + to[s]
}

/// `MapBuilder::memory`: a builder that writes to memory and has taken no
/// pair yet.
#[verifier::external_body]
pub(crate) fn builder_new() -> (b: fst::MapBuilder<Vec<u8>>)
    ensures
        builder_pieces(b) == (Map::<Seq<u8>, u64>::empty()),
        builder_last(b) is None,
{
    fst::MapBuilder::memory()
}

/// `MapBuilder::insert`: the builder takes the pair where it has taken no
/// key yet or `key` comes after the key it took last, and fails where `key`
/// is that key again or comes before it. The only other failure of `insert`
/// is one of the writer, and a builder from `builder_new` writes to a
/// `Vec<u8>`, which does not fail.
#[verifier::external_body]
pub(crate) fn builder_insert(b: &mut fst::MapBuilder<Vec<u8>>, key: &[u8], val: u64) -> (r: Result<
    (),
    fst::Error,
>)
    ensures
        r is Ok <==> (builder_last(*old(b)) matches Some(last) ==> lex_lt(last, key@)),
        r is Ok ==> builder_pieces(*final(b)) == builder_pieces(*old(b)).insert(key@, val),
        r is Ok ==> builder_last(*final(b)) == Some(key@),
{
    b.insert(key, val)
}

/// `MapBuilder::into_map`: the map of the pairs that the builder took. Such
/// a map is what `map_pieces` is `Some` of.
#[verifier::external_body]
pub(crate) fn builder_finish(b: fst::MapBuilder<Vec<u8>>) -> (m: fst::Map<Vec<u8>>)
    ensures
        map_pieces(m) == Some(builder_pieces(b)),
{
    b.into_map()
}

/// `Map::get`: the value stored under `key`, if there is one.
#[verifier::external_body]
pub(crate) fn map_get(m: &fst::Map<Vec<u8>>, key: &[u8]) -> (r: Option<u64>)
    requires
        map_pieces(*m) is Some,
    ensures
        r is Some <==> map_pieces(*m)->0.dom().contains(key@),
        r matches Some(v) ==> map_pieces(*m)->0[key@] == v,
{
    m.get(key)
}

/// `Map::stream` and `Stream::into_byte_vec`: every pair of the map, once, in
/// the lexicographic order of the keys.
#[verifier::external_body]
pub(crate) fn map_entries(m: &fst::Map<Vec<u8>>) -> (r: Vec<(Vec<u8>, u64)>)
    requires
        map_pieces(*m) is Some,
    ensures
        forall|i: int|
            0 <= i < r@.len() ==> map_pieces(*m)->0.contains_pair(
                (#[trigger] r@[i]).0@,
                r@[i].1,
            ),
        forall|k: Seq<u8>| #[trigger]
            map_pieces(*m)->0.dom().contains(k) ==> exists|i: int|
                0 <= i < r@.len() && (#[trigger] r@[i]).0@ == k,
        forall|i: int, j: int|
            0 <= i < j < r@.len() ==> lex_lt((#[trigger] r@[i]).0@, (#[trigger] r@[j]).0@),
{
    m.stream().into_byte_vec()
}

/// `Map::as_fst`, `Fst::root` and `Node::addr`: the address of the root
/// node, at which every key of the map starts.
#[verifier::external_body]
pub(crate) fn root_addr(m: &fst::Map<Vec<u8>>) -> (addr: usize)
    requires
        map_pieces(*m) is Some,
    ensures
        pieces_at(*m, addr) == map_pieces(*m),
{
    m.as_fst().root().addr()
}

/// `Node::is_final`, of the node that `Fst::node` reads at `addr`: whether a
/// key can end at that node.
#[verifier::external_body]
pub(crate) fn node_is_final(m: &fst::Map<Vec<u8>>, addr: usize) -> (r: bool)
    requires
        pieces_at(*m, addr) is Some,
    ensures
        r == pieces_at(*m, addr)->0.dom().contains(Seq::<u8>::empty()),
{
    m.as_fst().node(addr).is_final()
}

/// `Node::final_output`, of the node that `Fst::node` reads at `addr`: what
/// a final node adds to the value of a key that ends at it.
#[verifier::external_body]
pub(crate) fn node_final_output(m: &fst::Map<Vec<u8>>, addr: usize) -> (r: u64)
    requires
        pieces_at(*m, addr) is Some,
    ensures
        pieces_at(*m, addr)->0.dom().contains(Seq::<u8>::empty()) ==> r == pieces_at(
            *m,
            addr,
        )->0[Seq::<u8>::empty()],
{
    m.as_fst().node(addr).final_output().value()
}

/// `Node::find_input` and `Node::transition`, of the node that `Fst::node`
/// reads at `addr`: the output and the target of the transition on `byte`, or
/// `None` where the node has no such transition, so that no key goes on with
/// `byte`. A builder writes a node only on the way to the end of a key, so
/// the target holds at least one.
#[verifier::external_body]
pub(crate) fn node_step(m: &fst::Map<Vec<u8>>, addr: usize, byte: u8) -> (r: Option<(u64, usize)>)
    requires
        pieces_at(*m, addr) is Some,
    ensures
        r is None ==> forall|s: Seq<u8>|
            !(#[trigger] pieces_at(*m, addr)->0.dom().contains(seq![byte] + s)),
        r matches Some((out, next)) ==> pieces_at(*m, next) is Some && leads(
            pieces_at(*m, addr)->0,
            byte,
            out,
            pieces_at(*m, next)->0,
        ),
{
    let node = m.as_fst().node(addr);
    let t = node.transition(node.find_input(byte)?);
    Some((t.out.value(), t.addr))
}

} // verus!
