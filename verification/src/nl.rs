//! Set elements over nfnetlink: the types, and the logic that needs no socket.

pub use crate::attr::{iter_attrs, unwrap_data_value, NlAttr, Table};
pub use crate::be::{decrement_be, increment_be};
pub use crate::dump::{is_interval_set, NFT_SET_INTERVAL};
pub use crate::elem::{AddElem, Elem};
pub use crate::intervals::{reduce_intervals, set_contains_ip};
pub use crate::order::ByteOrder;
pub use crate::reply::{
    collect_elements, collect_flags, errno_to_msg, read_batch_reply, read_query_reply, received,
    refusal_message, timeout_message, Message, Outcome, Received,
};
pub use crate::request::{
    add_element_batch, add_elements_batch, batch_fits, delete_element_batch, put_elem_into_list,
    query_fits, replace_element_batch, set_elements_request, set_flags_request, Batch,
    IntervalOverflow,
};
pub use crate::wire::{align_up, MsgBuf};
