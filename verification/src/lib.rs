//! Verified core of a WSL/systemd distro manager: parsers and serializers for
//! environment files, passwd entries and systemd unit overrides, path
//! conversion between a container and its host, and the decisions that drive
//! the command-line tools.

pub mod text;
pub mod sorting;
pub mod envfile;
pub mod paths;
pub mod container;
pub mod distrod_config;
pub mod command_alias;
pub mod passwd;
pub mod systemdunit;
pub mod template;
pub mod shell_hook;
pub mod patterns;
pub mod mount_info;
pub mod distro;
pub mod wsl_interop;
pub mod autostart;
pub mod wsl_launcher;
pub mod distro_image;
pub mod container_org_image;
pub mod cli_ui;
pub mod commands;
pub mod container_cmd;
