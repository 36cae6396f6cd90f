//! What stands around a Shadowsocks stream: the opening salt, the disguise of the
//! first messages, and which flows a profile carries.
pub mod simple_obfs;
pub mod obfs_laws;
pub mod obfs_reading;
pub mod obfs_session;
pub mod outline;
