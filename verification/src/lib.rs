//! The decisions of Veracage, which opens encrypted volumes in a session of their own.
//!
//! Three programs share this library. The helper runs as root and opens and closes volumes:
//! `args`, `crypt`, `lock`, `names`, `process`, `session` and `volume` hold what it decides.
//! The agent runs as the person and shows the windows: `agent`, `apps`, `broker`, `commands`,
//! `config`, `detect`, `editor`, `fonts`, `keyboard`, `picker`, `proto`, `publish` and
//! `settings`. The compositor draws the session: `clipboard`, `clipio`, `hostclip`, `icons`,
//! `input`, `keybind`, `published`, `toolbar` and `window`. All of them rest on `text`,
//! `pairs` and `path`.

pub mod agent;
pub mod apps;
pub mod args;
pub mod broker;
pub mod clipboard;
pub mod clipio;
pub mod commands;
pub mod config;
pub mod crypt;
pub mod detect;
pub mod editor;
pub mod fonts;
pub mod hostclip;
pub mod icons;
pub mod input;
pub mod keybind;
pub mod keyboard;
pub mod lock;
pub mod names;
pub mod pairs;
pub mod path;
pub mod picker;
pub mod process;
pub mod proto;
pub mod publish;
pub mod published;
pub mod session;
pub mod settings;
pub mod text;
pub mod toolbar;
pub mod volume;
pub mod window;
