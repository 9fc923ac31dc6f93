//! Managing nftables set elements over nfnetlink, without libnftnl or libmnl.
//!
//! The crate speaks the nfnetlink and nftables wire protocol itself, and does
//! no input or output: requests are bytes to send, and replies are bytes that
//! were received.
//!
//! - [`nl`] is the way in for set elements: requests and replies, the reduction
//!   of boundary elements to intervals, and the test for membership.
//! - [`fmt`] writes elements for display, and reads addresses, blocks and
//!   durations.
//! - [`cli`] holds what the command line needs beyond that.
//!
//! The contracts are stated over sequences of bytes and characters. [`be`],
//! [`order`] and [`text`] say what numbers are as bytes and as text, [`wire`],
//! [`attr`], [`request`], [`dump`] and [`reply`] what messages are, and
//! [`intervals`], [`sort`] and [`cidr`] what a set of intervals is. [`roundtrip`]
//! proves that what is written is read back.

pub mod addr;
pub mod attr;
pub mod be;
pub mod cidr;
pub mod cli;
pub mod dump;
pub mod duration;
pub mod elem;
pub mod fmt;
pub mod intervals;
pub mod nl;
pub mod order;
pub mod reply;
pub mod request;
pub mod roundtrip;
pub mod sort;
pub mod text;
pub mod wire;
