//! The commands of the program and their options, as plain values.

use vstd::prelude::*;

verus! {

/// What the program is asked to do.
pub enum Cmds {
    /// Serve the screen.
    Start(StartCmd),
    /// Watch a server's screen.
    Connect(ConnectCmd),
}

/// The options of a server.
pub struct StartCmd {
    /// The UDP port to serve on.
    pub port: u16,
    /// The quality of the compression, in percent.
    pub quality: u8,
    /// The resolution of the stream, as width, `x` and height.
    pub resolution: String,
    /// Frames per second.
    pub fps: u8,
}

/// The options of a client.
pub struct ConnectCmd {
    /// The server's address, as host, `:` and port.
    pub address: String,
}

impl StartCmd {
    /// The milliseconds between two frames at the rate asked for: a second, divided by the
    /// frames per second, rounded down.
    pub fn frame_time_millis(&self) -> (millis: u64)
        requires
            self.fps > 0,
        ensures
            millis == 1000int / (self.fps as int),
    {
        1000u64 / (self.fps as u64)
    }
}

} // verus!
