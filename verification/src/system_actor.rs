//! The state of the system actor: the registry of the built-in actors.

use crate::cbor::{head, parse_head, read_head, write_head, MAJOR_ARRAY};
use crate::codec::{link_item, parse_link, read_link_item, write_link_item};
use crate::content_id::Cid;
use crate::error::StoreError;
use crate::store::Blockstore;
use vstd::prelude::*;

verus! {

/// The number of the system actor.
pub const SYSTEM_ACTOR_ID: u64 = 0;

/// The state of the system actor.
#[derive(Debug, PartialEq, Eq)]
pub struct State {
    /// The registry of the built-in actors: a list of names with identifiers.
    pub builtin_actors: Cid,
}

/// What the state tree holds of an actor.
#[derive(Debug, PartialEq, Eq)]
pub struct ActorState {
    /// The code of the actor.
    pub code: Cid,
    /// The state of the actor.
    pub state: Cid,
    /// The number of messages the actor has sent.
    pub sequence: u64,
}

/// Why the state of the system actor could not be had. Each of these ends the
/// machine.
#[derive(Debug, PartialEq, Eq)]
pub enum LoadError {
    /// The state tree holds no system actor.
    ActorNotResolved,
    /// The store failed.
    Store(StoreError),
    /// The store holds no block under the identifier of the state.
    StateNotFound,
    /// The block under the identifier of the state is not a state.
    Decode,
}

/// A state as it is written: an array of the one link.
pub open spec fn state_bytes(builtin_actors: Seq<u8>) -> Seq<u8> {
    head(MAJOR_ARRAY, 1) + link_item(builtin_actors)
}

/// The identifier of the registry in the state that `bytes` are the writing of.
pub open spec fn parse_state(bytes: Seq<u8>) -> Option<Seq<u8>> {
    match parse_head(bytes, 0) {
        Some(outer) => if outer.major == MAJOR_ARRAY && outer.arg == 1 {
            match parse_link(bytes, outer.next as int) {
                Some(link) => if link.next == bytes.len() {
                    Some(link.value)
                } else {
                    None
                },
                None => None,
            }
        } else {
            None
        },
        None => None,
    }
}

/// What loading the state gives, by what the state tree and the store hold.
pub open spec fn load_state_spec(
    system_act: Option<ActorState>,
    blocks: Map<Seq<u8>, Seq<u8>>,
) -> Result<Seq<u8>, LoadError> {
    match system_act {
        None => Err(LoadError::ActorNotResolved),
        Some(actor) => if !blocks.contains_key(actor.state@) {
            Err(LoadError::StateNotFound)
        } else {
            match parse_state(blocks[actor.state@]) {
                Some(registry) => Ok(registry),
                None => Err(LoadError::Decode),
            }
        },
    }
}

impl State {
    /// The bytes of the state.
    pub fn encode(&self) -> (bytes: Vec<u8>)
        ensures
            bytes@ == state_bytes(self.builtin_actors@),
    {
        let mut out: Vec<u8> = Vec::new();
        write_head(&mut out, MAJOR_ARRAY, 1);
        write_link_item(&mut out, self.builtin_actors.as_bytes());
        out
    }

    /// Reads the state that `bytes` are the writing of.
    pub fn decode(bytes: &[u8]) -> (r: Option<State>)
        ensures
            r is Some <==> parse_state(bytes@) is Some,
            r matches Some(state) ==> parse_state(bytes@) == Some(state.builtin_actors@)
                && state.builtin_actors.wf(),
    {
        let outer = match read_head(bytes, 0) {
            Some(h) => h,
            None => { return None; },
        };
        if outer.major != MAJOR_ARRAY || outer.arg != 1 {
            return None;
        }
        match read_link_item(bytes, outer.next) {
            Some((cid, next)) => if next == bytes.len() {
                Some(State { builtin_actors: Cid::from_canonical(cid) })
            } else {
                None
            },
            None => None,
        }
    }

    /// The state of the system actor, with what the state tree holds of the
    /// actor. `system_act` is what the state tree holds under the number of the
    /// system actor; the state is read from the store.
    pub fn load<BS: Blockstore>(system_act: Option<ActorState>, store: &BS) -> (r: Result<
        (State, ActorState),
        LoadError,
    >)
        ensures
            store.reliable() ==> !(r matches Err(LoadError::Store(_))),
            r matches Ok(loaded) ==> Some(loaded.1) == system_act && load_state_spec(
                system_act,
                store.blocks(),
            ) == Ok::<Seq<u8>, LoadError>(loaded.0.builtin_actors@),
            r matches Err(e) ==> e is Store || load_state_spec(system_act, store.blocks()) == Err::<
                Seq<u8>,
                LoadError,
            >(e),
    {
        let actor = match system_act {
            Some(actor) => actor,
            None => { return Err(LoadError::ActorNotResolved); },
        };
        let block = match store.get(&actor.state) {
            Ok(Some(block)) => block,
            Ok(None) => { return Err(LoadError::StateNotFound); },
            Err(e) => { return Err(LoadError::Store(e)); },
        };
        match State::decode(block.as_slice()) {
            Some(state) => Ok((state, actor)),
            None => Err(LoadError::Decode),
        }
    }
}

} // verus!
