# distrod

Runs a WSL 2 distribution under systemd: the distro's init starts in its own
Linux namespaces, login shells are pointed at command aliases that enter it,
and the WSL environment (interop socket, distro name, Windows paths) is passed
to systemd and to every user.

## Layout

- `src/` is the library, written in Verus. Verus proves the contract of
  every function in it except the small trusted wrappers around `regex`,
  `scraper`, `chrono`, `systemd-parser` and a few `std` string functions
  (marked `#[verifier::external_body]`), whose contracts are assumed.
  - `envfile` — `/etc/environment`-style files, `PATH` values and the login
    scripts that set variables; parsing, editing and writing them back.
  - `passwd` — `/etc/passwd` entries and rewriting a passwd file line by line.
  - `systemdunit` — unit overrides, unit paths, and the units an `[Install]`
    section names.
  - `shell_hook`, `command_alias` — pointing login shells at their aliases and back.
  - `container`, `paths` — paths inside the container and on the host.
  - `distro`, `wsl_interop`, `container_cmd` — which WSL variables, mounts and
    files a distro gets.
  - `container_org_image`, `distro_image`, `cli_ui` — reading the image
    listings of linuxcontainers.org and the user's choices.
  - `commands`, `autostart`, `wsl_launcher` — decisions of the programs.
  - `text`, `sorting`, `template`, `patterns` — helpers; `patterns` wraps the
    `regex` crate.
- `tests/` runs the library on concrete values.
- `app/` holds the programs: `distrod`, the setuid helper `distrod-exec` and
  `portproxy` (chosen by the name the binary runs under). They do the file,
  process and network work and ask the library what to do.
