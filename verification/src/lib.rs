//! apiary: the verified core of a handful of small desktop tools — a
//! bubblewrap sandbox runtime and its wrapper generator, hold-to-talk
//! dictation, a monitor record, a home-files applicator and a systemd
//! scope launcher. Each module states what its functions compute over
//! mathematical models, and Verus proves the code against it.

pub mod text;
pub mod lcs;
pub mod dictate;
pub mod sandbox;
pub mod bwrap;
pub mod invocation;
pub mod generator;
pub mod scoper;
pub mod home;
pub mod keymap;
pub mod monitors;
