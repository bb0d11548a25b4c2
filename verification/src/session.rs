//! The state of a client outside the game itself.

use vstd::prelude::*;

verus! {

/// Whether a game is played alone or on a server.
#[derive(Debug, Clone, Copy, PartialEq, Eq, Structural)]
pub enum GameMode {
    SinglePlayer,
    MultiPlayer,
}

/// The main menu.
#[derive(Debug)]
pub struct MainMenuState {
    pub selected_option: usize,
    pub connecting: bool,
    pub connection_error: Option<String>,
}

impl MainMenuState {
    /// The menu as it opens: the first option selected, no connection
    /// under way and no error.
    pub fn new() -> (menu: MainMenuState)
        ensures
            menu.selected_option == 0,
            !menu.connecting,
            menu.connection_error is None,
    {
        MainMenuState { selected_option: 0, connecting: false, connection_error: None }
    }
}

/// A connection, and when it was last active, in seconds.
#[derive(Debug)]
pub struct ConnectionState {
    pub connected: bool,
    pub last_activity: u64,
    pub connection_id: String,
}

impl ConnectionState {
    /// A live connection that was active at `now`.
    pub fn new(connection_id: String, now: u64) -> (state: ConnectionState)
        ensures
            state.connected,
            state.last_activity == now,
            state.connection_id == connection_id,
    {
        ConnectionState { connected: true, last_activity: now, connection_id }
    }

    /// Records activity at `now`.
    pub fn update_activity(&mut self, now: u64)
        ensures
            final(self).last_activity == now,
            final(self).connected == old(self).connected,
            final(self).connection_id == old(self).connection_id,
    {
        self.last_activity = now;
    }

    /// Ends the connection.
    pub fn disconnect(&mut self)
        ensures
            !final(self).connected,
            final(self).last_activity == old(self).last_activity,
            final(self).connection_id == old(self).connection_id,
    {
        self.connected = false;
    }

    pub fn is_connected(&self) -> (connected: bool)
        ensures
            connected == self.connected,
    {
        self.connected
    }
}

} // verus!
