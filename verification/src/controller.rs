use vstd::prelude::*;

use crate::error::ServerError;
use crate::frame::{DisconnectResponse, Request, RequestContext, SetTileResponse};
use crate::player::has_player;
use crate::server::{Server, disconnect_effect, set_tile_effect, set_tile_result};

verus! {

/// Per-operation handler for disconnect requests. The dispatcher routes a
/// decoded disconnect frame here together with the request context naming
/// the connection it arrived on.
#[derive(Debug, Clone)]
pub struct DisconnectController {}

impl DisconnectController {
    pub fn new() -> (r: DisconnectController)
        ensures
            r == (DisconnectController {  }),
    {
        DisconnectController {}
    }

    /// Handle one disconnect request against the shared registries. Only a
    /// disconnect request may be routed here.
    pub fn handle_request(&self, server: &mut Server, req: &Request, context: RequestContext) -> (r:
        Result<DisconnectResponse, ServerError>)
        requires
            old(server).wf(),
            *req is Disconnect,
        ensures
            final(server).wf(),
            !has_player(old(server).pview(), context.client_id) ==> r == Err::<
                DisconnectResponse,
                ServerError,
            >(ServerError::PlayerNotFound) && *final(server) == *old(server),
            has_player(old(server).pview(), context.client_id) ==> r == Ok::<
                DisconnectResponse,
                ServerError,
            >((DisconnectResponse { success: true })) && disconnect_effect(
                *old(server),
                *final(server),
                context.client_id,
            ),
    {
        match server.disconnect(context.client_id) {
            Ok(()) => Ok(DisconnectResponse { success: true }),
            Err(e) => Err(e),
        }
    }
}

/// Per-operation handler for place-tile requests: identity and membership
/// resolution, card and turn validation, and board bounds; actual board
/// mutation is the rules service's business.
#[derive(Debug, Clone)]
pub struct SetTileController {}

impl SetTileController {
    pub fn new() -> (r: SetTileController)
        ensures
            r == (SetTileController {  }),
    {
        SetTileController {}
    }

    /// Handle one place-tile request against the shared registries. Only a
    /// place-tile request may be routed here.
    pub fn handle_request(&self, server: &mut Server, req: &Request, context: RequestContext) -> (r:
        Result<SetTileResponse, ServerError>)
        requires
            old(server).wf(),
            *req is SetTile,
        ensures
            final(server).wf(),
            *req matches Request::SetTile(st) ==> {
                &&& (set_tile_result(
                    *old(server),
                    context.client_id,
                    st.x,
                    st.y,
                    st.card_index,
                ) is Ok ==> r == Ok::<SetTileResponse, ServerError>(
                    (SetTileResponse { success: true }),
                ) && set_tile_effect(*old(server), *final(server), context.client_id))
                &&& (set_tile_result(
                    *old(server),
                    context.client_id,
                    st.x,
                    st.y,
                    st.card_index,
                ) matches Err(e) ==> r == Err::<SetTileResponse, ServerError>(e) && *final(server)
                    == *old(server))
            },
    {
        match req {
            Request::SetTile(st) => {
                match server.set_tile(context.client_id, st.x, st.y, st.card_index) {
                    Ok(()) => Ok(SetTileResponse { success: true }),
                    Err(e) => Err(e),
                }
            },
            _ => {
                proof {
                    assert(false);
                }
                Err(ServerError::PlayerNotFound)
            },
        }
    }
}

} // verus!
