//! Packet numbers and content numbers of the 160.5 protocol.

use vstd::prelude::*;

verus! {

pub const REGISTER_UDP: u8 = 3;
pub const REGISTER_TCP: u8 = 4;
pub const KEEP_ALIVE: u8 = 2;
pub const DISCOVER_HOST: u8 = 1;
pub const FRAMEWORK_PACKET_LEN: usize = 6;

/// Packet ID from the generated registry bundled with desktop build 160.5.
pub const CONNECT_CONFIRM_PACKET_ID: u8 = 34;

pub const ADMIN_REQUEST_PACKET_ID: u8 = 7;
pub const CLIENT_LOGIC_DATA_RELIABLE_PACKET_ID: u8 = 23;
pub const CLIENT_LOGIC_DATA_UNRELIABLE_PACKET_ID: u8 = 24;
pub const REQUEST_BUILD_PAYLOAD_PACKET_ID: u8 = 96;
pub const REQUEST_DROP_PAYLOAD_PACKET_ID: u8 = 98;
pub const REQUEST_UNIT_PAYLOAD_PACKET_ID: u8 = 100;
pub const REQUEST_ASSETS_PACKET_ID: u8 = 94;
pub const REQUEST_WORLD_PACKET_ID: u8 = 101;
pub const SERVER_BINARY_PACKET_RELIABLE_PACKET_ID: u8 = 108;
pub const SERVER_BINARY_PACKET_UNRELIABLE_PACKET_ID: u8 = 109;
pub const SERVER_PACKET_RELIABLE_PACKET_ID: u8 = 110;
pub const SERVER_PACKET_UNRELIABLE_PACKET_ID: u8 = 111;
pub const SET_PLAYER_TEAM_EDITOR_PACKET_ID: u8 = 124;
pub const TRACE_INFO_PACKET_ID: u8 = 149;
pub const SET_POSITION_PACKET_ID: u8 = 125;
pub const REMOVE_QUEUE_BLOCK_PACKET_ID: u8 = 91;
pub const CLIENT_SNAPSHOT_PACKET_ID: u8 = 29;
pub const COMMAND_BUILDING_PACKET_ID: u8 = 30;
pub const COMMAND_UNITS_PACKET_ID: u8 = 31;
pub const PING_PACKET_ID: u8 = 84;
pub const PING_RESPONSE_PACKET_ID: u8 = 86;
pub const PLAYER_DISCONNECT_PACKET_ID: u8 = 88;
pub const PLAYER_SPAWN_PACKET_ID: u8 = 89;
pub const SEND_CHAT_PACKET_ID: u8 = 105;
pub const SEND_MESSAGE_PACKET_ID: u8 = 106;
pub const DEBUG_STATUS_CLIENT_PACKET_ID: u8 = 40;
pub const DEBUG_STATUS_CLIENT_UNRELIABLE_PACKET_ID: u8 = 41;
pub const MENU_CHOOSE_PACKET_ID: u8 = 79;
pub const REQUEST_DEBUG_STATUS_PACKET_ID: u8 = 97;
pub const TEXT_INPUT_RESULT_PACKET_ID: u8 = 146;
pub const TILE_TAP_PACKET_ID: u8 = 148;
pub const SEND_MESSAGE_2_PACKET_ID: u8 = 107;
pub const SET_UNIT_COMMAND_PACKET_ID: u8 = 136;
pub const SET_UNIT_STANCE_PACKET_ID: u8 = 137;
pub const STATE_SNAPSHOT_PACKET_ID: u8 = 141;
pub const ENTITY_SNAPSHOT_PACKET_ID: u8 = 49;
pub const CREATE_BULLET_PACKET_ID: u8 = 37;
pub const UNIT_DEATH_PACKET_ID: u8 = 159;
pub const UNIT_DESPAWN_PACKET_ID: u8 = 160;
pub const UNIT_CLEAR_PACKET_ID: u8 = 157;
pub const UNIT_BLOCK_SPAWN_PACKET_ID: u8 = 154;
pub const UNIT_BUILDING_CONTROL_SELECT_PACKET_ID: u8 = 155;
pub const UNIT_SPAWN_PACKET_ID: u8 = 165;
pub const UNIT_ENTERED_PAYLOAD_PACKET_ID: u8 = 162;
pub const PICKED_UNIT_PAYLOAD_PACKET_ID: u8 = 83;
pub const PICKED_BUILD_PAYLOAD_PACKET_ID: u8 = 82;
pub const PAYLOAD_DROPPED_PACKET_ID: u8 = 81;
pub const CONSTRUCT_FINISH_PACKET_ID: u8 = 35;
pub const ASSEMBLER_DRONE_SPAWNED_PACKET_ID: u8 = 9;
pub const AUTO_DOOR_TOGGLE_PACKET_ID: u8 = 11;
pub const SET_RULES_PACKET_ID: u8 = 127;
pub const SET_FLAG_PACKET_ID: u8 = 113;
pub const SET_FLOOR_PACKET_ID: u8 = 114;
pub const SET_ITEM_PACKET_ID: u8 = 117;
pub const SET_ITEMS_PACKET_ID: u8 = 118;
pub const SET_LIQUID_PACKET_ID: u8 = 119;
pub const SET_LIQUIDS_PACKET_ID: u8 = 120;
pub const SET_MAP_AREA_PACKET_ID: u8 = 121;
pub const SET_OBJECTIVES_PACKET_ID: u8 = 122;
pub const SET_OVERLAY_PACKET_ID: u8 = 123;
pub const SET_TEAM_PACKET_ID: u8 = 128;
pub const SET_TEAMS_PACKET_ID: u8 = 129;
pub const SET_TILE_PACKET_ID: u8 = 130;
pub const SYNC_VARIABLE_PACKET_ID: u8 = 142;
pub const LOGIC_EXPLOSION_PACKET_ID: u8 = 74;
pub const CLEAR_ITEMS_PACKET_ID: u8 = 18;
pub const CLEAR_LIQUIDS_PACKET_ID: u8 = 19;
pub const CLEAR_OBJECTIVES_PACKET_ID: u8 = 20;
pub const COMPLETE_OBJECTIVE_PACKET_ID: u8 = 32;
pub const CREATE_WEATHER_PACKET_ID: u8 = 39;
pub const RESEARCHED_PACKET_ID: u8 = 102;
pub const SECTOR_CAPTURE_PACKET_ID: u8 = 104;
pub const UPDATE_GAME_OVER_PACKET_ID: u8 = 167;
pub const BEGIN_PLACE_PACKET_ID: u8 = 13;
pub const BEGIN_BREAK_PACKET_ID: u8 = 12;
pub const BLOCK_SNAPSHOT_PACKET_ID: u8 = 14;
pub const BUILD_DESTROYED_PACKET_ID: u8 = 15;
pub const BUILD_HEALTH_UPDATE_PACKET_ID: u8 = 16;
pub const DECONSTRUCT_FINISH_PACKET_ID: u8 = 42;
pub const REMOVE_TILE_PACKET_ID: u8 = 92;
pub const REQUEST_BLOCK_SNAPSHOT_PACKET_ID: u8 = 95;
pub const REQUEST_ITEM_PACKET_ID: u8 = 99;
pub const ROTATE_BLOCK_PACKET_ID: u8 = 103;
pub const TAKE_ITEMS_PACKET_ID: u8 = 143;
pub const TILE_CONFIG_PACKET_ID: u8 = 147;
pub const TRANSFER_INVENTORY_PACKET_ID: u8 = 150;
pub const TRANSFER_ITEM_TO_PACKET_ID: u8 = 152;
pub const KICK_PACKET_ID: u8 = 65;
pub const KICK_2_PACKET_ID: u8 = 66;
pub const GAME_OVER_PACKET_ID: u8 = 54;
pub const WORLD_DATA_BEGIN_PACKET_ID: u8 = 172;
pub const BUILDING_CONTROL_SELECT_PACKET_ID: u8 = 17;
pub const CLIENT_PLAN_SNAPSHOT_PACKET_ID: u8 = 27;
pub const CLIENT_PLAN_SNAPSHOT_RECEIVED_PACKET_ID: u8 = 28;
pub const DELETE_PLANS_PACKET_ID: u8 = 43;
pub const DROP_ITEM_PACKET_ID: u8 = 45;
pub const PING_LOCATION_PACKET_ID: u8 = 85;
pub const UNIT_CONTROL_PACKET_ID: u8 = 158;
pub const PLAYER_CLASS_ID: u8 = 12;
pub const ALPHA_CLASS_ID: u8 = 0;
pub const ALPHA_CONTENT_ID: i16 = 35;
/// Class numbers of the legacy beta and gamma units.
pub const BETA_CLASS_ID: u8 = 30;
pub const GAMMA_CLASS_ID: u8 = 31;
pub const BETA_CONTENT_ID: i16 = 36;
pub const GAMMA_CONTENT_ID: i16 = 37;
/// `PayloadUnit` classId — Erekir core ships (evoke/incite/emanate).
pub const PAYLOAD_UNIT_CLASS_ID: u8 = 5;
pub const EVOKE_CONTENT_ID: i16 = 58;
pub const INCITE_CONTENT_ID: i16 = 59;
pub const EMANATE_CONTENT_ID: i16 = 60;

/// The class and content numbers under which a player's core unit is synchronised.
/// The legacy core units share one layout; the later core ships are payload units.
/// Every other content number is sent as the first core unit.
pub open spec fn spec_core_unit_sync_ids(content_id: i16) -> (u8, i16) {
    if content_id == BETA_CONTENT_ID {
        (BETA_CLASS_ID, content_id)
    } else if content_id == GAMMA_CONTENT_ID {
        (GAMMA_CLASS_ID, content_id)
    } else if EVOKE_CONTENT_ID <= content_id <= EMANATE_CONTENT_ID {
        (PAYLOAD_UNIT_CLASS_ID, content_id)
    } else {
        (ALPHA_CLASS_ID, ALPHA_CONTENT_ID)
    }
}

/// Player-core class and content ids. Alpha, beta and gamma share one layout; the
/// Erekir core ships are payload units and insert an empty payload count after the
/// weapon mounts.
pub fn core_unit_sync_ids(content_id: i16) -> (r: (u8, i16))
    ensures
        r == spec_core_unit_sync_ids(content_id),
{
    match content_id {
        36 => (BETA_CLASS_ID, BETA_CONTENT_ID),
        37 => (GAMMA_CLASS_ID, GAMMA_CONTENT_ID),
        58 => (PAYLOAD_UNIT_CLASS_ID, EVOKE_CONTENT_ID),
        59 => (PAYLOAD_UNIT_CLASS_ID, INCITE_CONTENT_ID),
        60 => (PAYLOAD_UNIT_CLASS_ID, EMANATE_CONTENT_ID),
        _ => (ALPHA_CLASS_ID, ALPHA_CONTENT_ID),
    }
}

pub const SPAWN_X: i16 = 40;
pub const SPAWN_Y: i16 = 100;
pub const MAP_WIDTH: i32 = 300;
pub const MAP_HEIGHT: i32 = 300;
pub const FACTORY_COMMAND_MARKER: u8 = 254;

/// The packets that may travel without delivery guarantees.
pub open spec fn unreliable_packets() -> Set<u8> {
    set![
        ENTITY_SNAPSHOT_PACKET_ID,
        STATE_SNAPSHOT_PACKET_ID,
        BLOCK_SNAPSHOT_PACKET_ID,
        CREATE_BULLET_PACKET_ID,
        UNIT_SPAWN_PACKET_ID,
        TAKE_ITEMS_PACKET_ID,
        TRANSFER_ITEM_TO_PACKET_ID,
        CLIENT_SNAPSHOT_PACKET_ID,
        CLIENT_PLAN_SNAPSHOT_PACKET_ID,
        REQUEST_BLOCK_SNAPSHOT_PACKET_ID,
        TILE_TAP_PACKET_ID,
        DEBUG_STATUS_CLIENT_UNRELIABLE_PACKET_ID,
    ]
}

/// Whether a packet number is one of the unreliable ones.
pub fn packet_unreliable(packet_id: u8) -> (r: bool)
    ensures
        r == unreliable_packets().contains(packet_id),
{
    packet_id == ENTITY_SNAPSHOT_PACKET_ID || packet_id == STATE_SNAPSHOT_PACKET_ID || packet_id
        == BLOCK_SNAPSHOT_PACKET_ID || packet_id == CREATE_BULLET_PACKET_ID || packet_id
        == UNIT_SPAWN_PACKET_ID || packet_id == TAKE_ITEMS_PACKET_ID || packet_id
        == TRANSFER_ITEM_TO_PACKET_ID || packet_id == CLIENT_SNAPSHOT_PACKET_ID || packet_id
        == CLIENT_PLAN_SNAPSHOT_PACKET_ID || packet_id == REQUEST_BLOCK_SNAPSHOT_PACKET_ID
        || packet_id == TILE_TAP_PACKET_ID || packet_id == DEBUG_STATUS_CLIENT_UNRELIABLE_PACKET_ID
}

} // verus!
