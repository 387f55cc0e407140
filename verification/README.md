# aproman

`aproman` restores HDMI audio after suspend/resume on Linux systems running
PipeWire + WirePlumber: on wake it cycles the card profile off and back on,
and it restarts PipeWire (with a cooldown) when a node enters the error
state.

## Layout

- `src/` is the verified library: apart from a few trusted wrappers around
  std and serde_json, Verus proves each function in it against its
  contract:
  - `text`: whitespace, trimming, `str::lines`, substring search, decimals;
  - `card_lines`, `pactl`: the `pactl list cards` report, card and profile
    choice, the cycle plan, the listings;
  - `config`, `config_laws`: the configuration file, looking a default up,
    writing one, and the settings in force;
  - `daemon`: the control socket protocol and the daemon's decisions;
  - `pipewire`, `pw_monitor`: the restart cooldown and commands, and node
    errors in the `pw-dump --monitor` stream;
  - `sleep_monitor`: the `PrepareForSleep` lines of `dbus-monitor`.
- `app/` is the program: command line (clap), logging, signals, child
  processes, files, the socket and the event loop. It asks the library what
  to do and does it.
- `tests/` runs the library on concrete inputs.
