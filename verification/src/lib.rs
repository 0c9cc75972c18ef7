//! A fixed-capacity-friendly hash map using Robin Hood open addressing with
//! backward-shift deletion, together with the bit layout of the serial-link
//! UART control register it was built alongside.

pub mod hash_map;
pub mod serial_link;
