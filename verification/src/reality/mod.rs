//! REALITY: a TLS 1.3 client whose hello imitates a browser's and whose server
//! proves itself through a key shared out of band.
pub mod answer_laws;
pub mod auth;
pub mod auth_laws;
pub mod cipher_suite;
pub mod client_connection;
pub mod client_hello;
pub mod common;
pub mod connection_laws;
pub mod draw_laws;
pub mod drawn_reading;
pub mod driver;
pub mod flight_laws;
pub mod grease;
pub mod group;
pub mod handshake;
pub mod handshake_laws;
pub mod hello_laws;
pub mod hello_order;
pub mod hello_profile;
pub mod hello_reading;
pub mod hello_tables;
pub mod key_exchange;
pub mod key_schedule;
pub mod key_laws;
pub mod messages;
pub mod prepared_hello;
pub mod profile_laws;
pub mod randomized_hello;
pub mod records;
pub mod runtime_tables;
pub mod schedule_laws;
pub mod server_hello;
pub mod shuffle_laws;
pub mod table_fields;
pub mod table_laws;
pub mod testkit;
pub mod traffic_laws;
pub mod util;
