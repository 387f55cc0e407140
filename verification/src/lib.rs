//! Verified core of `aproman`, a daemon that restores HDMI audio after
//! suspend/resume on PipeWire + WirePlumber systems.
//!
//! The library holds the decisions and the text formats of the daemon: the
//! `pactl list cards` report, the configuration file, the control socket
//! protocol, the `dbus-monitor` sleep signal stream and the
//! `pw-dump --monitor` node error stream.  Processes, sockets, files and
//! timers live in the program around it.
pub mod text;
pub mod events;
pub mod cli;
pub mod card_lines;
pub mod pactl;
pub mod config;
pub mod config_laws;
pub mod daemon;
pub mod pipewire;
pub mod pw_monitor;
pub mod sleep_monitor;
