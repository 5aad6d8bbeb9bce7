//! Syntactic components of a URI after RFC 3986: percent-encoded characters,
//! paths, queries, fragments and dotted-decimal IPv4 addresses.
//!
//! Bytes are decoded into characters (`decode`), the characters are read
//! through a buffer that takes back what was read (`buffer`), and each
//! production of the grammar (`parse`) either matches at the place where
//! the buffer stands or leaves the buffer there. What a production matches
//! is said in `grammar`; `laws` relates matching to writing the nodes out
//! again.

pub mod buffer;
pub mod char_buf;
pub mod decode;
pub mod grammar;
pub mod laws;
pub mod lemmas;
pub mod nodes;
pub mod parse;
pub mod text;

pub use buffer::{new_char_buf, CharBuffer};
pub use char_buf::Char;
pub use decode::{CharStream, EscapeError};
pub use nodes::{DecOctet, Fragment, Ipv4address, Path, Query, Segment, H16};
pub use parse::{
    parse_dec_octet, parse_fragment, parse_h16, parse_ipv4_address, parse_path,
    parse_path_abempty, parse_path_absolute, parse_path_empty, parse_path_noscheme,
    parse_path_rootless, parse_query, parse_segment, parse_segment_nz, parse_segment_nz_nc,
};
