//! An automaton that recognizes the prefixes of a string.
use std::borrow::Cow;
use vstd::prelude::*;
use vstd::std_specs::convert::FromSpecImpl;
use vstd::string::StringSliceAdditionalSpecFns;
use vstd::utf8::{encode_utf8, is_char_boundary};

verus! {

/// A state of a `PrefixAutomaton`.
#[derive(Clone, Copy, Debug, PartialEq, Eq, Structural)]
pub enum PrefixAutomatonState {
    /// The bytes read are no prefix of the string, and no further byte
    /// makes them one.
    Sink,
    /// The bytes read are the first bytes of the string, as many as the
    /// field says.
    State(usize),
}

/// An automaton that matches every prefix of a string. For
/// example, an automaton that matches *"hello"* will match:
/// *""*, *"h"*, *"he"*, *"hel"*, *"hell"*, *"hello"*.
///
/// Only prefixes consisting of complete code points are
/// recognized. For example, for the string *"ë"*, *[]*
/// and *[0xc3, 0xab]* are accepted, whereas *[0xc3]* is
/// not.
pub struct PrefixAutomaton<'a>(Cow<'a, str>);

/// The state after `byte` was read in `state`, where `text` is the string
/// whose prefixes are recognized.
pub open spec fn accept_spec(text: Seq<u8>, state: PrefixAutomatonState, byte: u8) -> PrefixAutomatonState {
    match state {
        PrefixAutomatonState::Sink => PrefixAutomatonState::Sink,
        PrefixAutomatonState::State(idx) => if idx < text.len() && text[idx as int] == byte {
            PrefixAutomatonState::State((idx + 1) as usize)
        } else {
            PrefixAutomatonState::Sink
        },
    }
}

/// The state after all of `data` was read from the start.
pub open spec fn run(text: Seq<u8>, data: Seq<u8>) -> PrefixAutomatonState
    decreases data.len(),
{
    if data.len() == 0 {
        PrefixAutomatonState::State(0)
    } else {
        accept_spec(text, run(text, data.drop_last()), data.last())
    }
}

/// Whether `state` is a match: the bytes read are a prefix of `text` that
/// ends at a code point boundary.
pub open spec fn is_match_spec(text: Seq<u8>, state: PrefixAutomatonState) -> bool {
    match state {
        PrefixAutomatonState::Sink => false,
        PrefixAutomatonState::State(idx) => is_char_boundary(text, idx as int),
    }
}

/// `data` are the first bytes of `text`.
pub open spec fn is_prefix(data: Seq<u8>, text: Seq<u8>) -> bool {
    data.len() <= text.len() && text.subrange(0, data.len() as int) == data
}

/// Reading `data` from the start leads to the state that counts the bytes
/// of `data` where `data` is a prefix of `text`, and to the sink where it is
/// not. So the automaton matches `data` if and only if `data` is a prefix of
/// `text` that ends at a code point boundary.
pub proof fn lemma_run(text: Seq<u8>, data: Seq<u8>)
    requires
        text.len() <= usize::MAX,
    ensures
        run(text, data) == if is_prefix(data, text) {
            PrefixAutomatonState::State(data.len() as usize)
        } else {
            PrefixAutomatonState::Sink
        },
        is_match_spec(text, run(text, data)) == (is_prefix(data, text) && is_char_boundary(
            text,
            data.len() as int,
        )),
    decreases data.len(),
{
    if data.len() == 0 {
        assert(text.subrange(0, 0) =~= data);
    } else {
        let front = data.drop_last();
        lemma_run(text, front);
        if is_prefix(front, text) {
            if front.len() < text.len() && text[front.len() as int] == data.last() {
                assert(text.subrange(0, data.len() as int) =~= data);
            } else if data.len() <= text.len() {
                assert(text.subrange(0, data.len() as int)[front.len() as int] != data[front.len() as int]);
            }
        } else if data.len() <= text.len() {
            assert(text.subrange(0, front.len() as int) =~= text.subrange(0, data.len() as int).drop_last());
        }
    }
}

impl<'a> PrefixAutomaton<'a> {
    /// The bytes of the string whose prefixes are recognized.
    pub closed spec fn text(&self) -> Seq<u8> {
        encode_utf8(self.0@)
    }

    /// The string whose prefixes are recognized.
    fn as_str(&self) -> (r: &str)
        ensures
            r.spec_bytes() == self.text(),
    {
        match &self.0 {
            Cow::Borrowed(s) => s,
            Cow::Owned(s) => s.as_str(),
        }
    }

    /// The state in which no byte has been read.
    pub fn start(&self) -> (r: PrefixAutomatonState)
        ensures
            r == PrefixAutomatonState::State(0),
    {
        PrefixAutomatonState::State(0)
    }

    /// Whether a match can still be reached from `state`.
    pub fn can_match(&self, state: &PrefixAutomatonState) -> (r: bool)
        ensures
            r == (*state is State),
    {
        match *state {
            PrefixAutomatonState::Sink => false,
            PrefixAutomatonState::State(_) => true,
        }
    }

    /// Whether the bytes read so far are a prefix of the string that
    /// consists of complete code points.
    pub fn is_match(&self, state: &PrefixAutomatonState) -> (r: bool)
        ensures
            r == is_match_spec(self.text(), *state),
    {
        match *state {
            PrefixAutomatonState::Sink => false,
            PrefixAutomatonState::State(idx) => self.as_str().is_char_boundary(idx),
        }
    }

    /// The state after one more byte. A state that counts more bytes than
    /// the string has is not a state of this automaton.
    pub fn accept(&self, state: &PrefixAutomatonState, byte: u8) -> (r: PrefixAutomatonState)
        requires
            *state matches PrefixAutomatonState::State(idx) ==> idx <= self.text().len(),
        ensures
            r == accept_spec(self.text(), *state, byte),
    {
        match *state {
            PrefixAutomatonState::Sink => PrefixAutomatonState::Sink,
            PrefixAutomatonState::State(idx) => {
                let bytes = self.as_str().as_bytes();
                if idx == bytes.len() {
                    // Recognizing characters beyond the end of the string
                    // leads to the sink state.
                    PrefixAutomatonState::Sink
                } else if bytes[idx] == byte {
                    // Move to the next state if the byte is recognized.
                    PrefixAutomatonState::State(idx + 1)
                } else {
                    // Otherwise, the byte is not recognized and we move
                    // to the sink state.
                    PrefixAutomatonState::Sink
                }
            },
        }
    }
}

impl From<String> for PrefixAutomaton<'static> {
    fn from(s: String) -> (r: Self)
        ensures
            r.text() == encode_utf8(s@),
    {
        PrefixAutomaton(Cow::Owned(s))
    }
}

impl FromSpecImpl<String> for PrefixAutomaton<'static> {
    open spec fn obeys_from_spec() -> bool {
        true
    }

    closed spec fn from_spec(s: String) -> Self {
        PrefixAutomaton(Cow::Owned(s))
    }
}

impl<'a> From<&'a str> for PrefixAutomaton<'a> {
    fn from(s: &'a str) -> (r: Self)
        ensures
            r.text() == s.spec_bytes(),
    {
        PrefixAutomaton(Cow::Borrowed(s))
    }
}

impl<'a> FromSpecImpl<&'a str> for PrefixAutomaton<'a> {
    open spec fn obeys_from_spec() -> bool {
        true
    }

    closed spec fn from_spec(s: &'a str) -> Self {
        PrefixAutomaton(Cow::Borrowed(s))
    }
}

} // verus!
